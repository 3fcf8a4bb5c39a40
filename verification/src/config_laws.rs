//! What the environment does to the settings, variable by variable.

use crate::address::socket_of;
use crate::config::{
    lower, lowercase, number_of, protocol_of, truth_of, variable, variable_name, with_environment,
    with_variable, ConfigFault, ConfigModel, Protocol,
};
use crate::text::bounded_unsigned;
use vstd::prelude::*;
use vstd::utf8::encode_utf8;

verus! {

/// A variable has the value of the first pair with its name, and is unset where
/// no pair has it.
pub proof fn law_variable_is_the_first(environment: Seq<(String, String)>, name: Seq<char>)
    ensures
        variable(environment, name) is None <==> forall|i: int|
            0 <= i < environment.len() ==> (#[trigger] environment[i]).0@ != name,
        forall|i: int|
            0 <= i < environment.len() && (#[trigger] environment[i]).0@ == name && (forall|j: int|
                0 <= j < i ==> (#[trigger] environment[j]).0@ != name) ==> variable(
                environment,
                name,
            ) == Some(environment[i].1@),
    decreases environment.len(),
{
    if environment.len() > 0 {
        let rest = environment.subrange(1, environment.len() as int);
        law_variable_is_the_first(rest, name);
        assert(environment[0].0@ == name ==> variable(environment, name) is Some);
        if environment[0].0@ != name {
            assert forall|i: int| 0 < i < environment.len() implies #[trigger] environment[i]
                == rest[i - 1] by {}
            if variable(environment, name) is Some {
                let k = choose|k: int| 0 <= k < rest.len() && (#[trigger] rest[k]).0@ == name;
                assert(environment[k + 1].0@ == name);
            }
        }
        assert forall|i: int|
            0 <= i < environment.len() && (#[trigger] environment[i]).0@ == name && (forall|j: int|
                0 <= j < i ==> (#[trigger] environment[j]).0@ != name) implies variable(
            environment,
            name,
        ) == Some(environment[i].1@) by {
            if i > 0 {
                assert(environment[0].0@ != name);
                assert(rest[i - 1] == environment[i]);
                assert forall|j: int| 0 <= j < i - 1 implies (#[trigger] rest[j]).0@ != name by {
                    assert(rest[j] == environment[j + 1]);
                }
            }
        }
    }
}

/// The settings, one by one.
pub enum Setting {
    DefaultProtocol,
    EnableHttpScrape,
    EnableUdpScrape,
    HttpAddr,
    UdpAddr,
    AnnounceInterval,
    PeerTimeout,
    PersistenceInterval,
    RateLimitPerMinute,
    MaxConcurrentHttpRequests,
    DatabasePath,
    LogFilter,
}

/// The value of a setting.
pub enum SettingValue {
    Protocol(Protocol),
    Truth(bool),
    Address((Seq<u8>, nat, nat)),
    Number(nat),
    Text(Seq<char>),
}

/// The variable that sets a setting.
pub open spec fn variable_of(setting: Setting) -> Seq<char> {
    match setting {
        Setting::DefaultProtocol => "HIVE_PROTOCOL"@,
        Setting::EnableHttpScrape => "HIVE_ENABLE_HTTP_SCRAPE"@,
        Setting::EnableUdpScrape => "HIVE_ENABLE_UDP_SCRAPE"@,
        Setting::HttpAddr => "HIVE_HTTP_ADDR"@,
        Setting::UdpAddr => "HIVE_UDP_ADDR"@,
        Setting::AnnounceInterval => "HIVE_ANNOUNCE_INTERVAL"@,
        Setting::PeerTimeout => "HIVE_PEER_TIMEOUT"@,
        Setting::PersistenceInterval => "HIVE_PERSISTENCE_INTERVAL"@,
        Setting::RateLimitPerMinute => "HIVE_RATE_LIMIT_PER_MINUTE"@,
        Setting::MaxConcurrentHttpRequests => "HIVE_MAX_CONCURRENT_HTTP_REQUESTS"@,
        Setting::DatabasePath => "HIVE_DATABASE_PATH"@,
        Setting::LogFilter => "HIVE_LOG_FILTER"@,
    }
}

/// The value that a setting has.
pub open spec fn value_in(config: ConfigModel, setting: Setting) -> SettingValue {
    match setting {
        Setting::DefaultProtocol => SettingValue::Protocol(config.default_protocol),
        Setting::EnableHttpScrape => SettingValue::Truth(config.enable_http_scrape),
        Setting::EnableUdpScrape => SettingValue::Truth(config.enable_udp_scrape),
        Setting::HttpAddr => SettingValue::Address(config.http_addr),
        Setting::UdpAddr => SettingValue::Address(config.udp_addr),
        Setting::AnnounceInterval => SettingValue::Number(config.announce_interval),
        Setting::PeerTimeout => SettingValue::Number(config.peer_timeout),
        Setting::PersistenceInterval => SettingValue::Number(config.persistence_interval),
        Setting::RateLimitPerMinute => SettingValue::Number(config.rate_limit_per_minute),
        Setting::MaxConcurrentHttpRequests => SettingValue::Number(config.max_concurrent_http_requests),
        Setting::DatabasePath => SettingValue::Text(config.database_path),
        Setting::LogFilter => SettingValue::Text(config.log_filter),
    }
}

/// A number in decimal, up to a limit.
pub open spec fn read_number(text: Seq<char>, limit: nat) -> Option<SettingValue> {
    match bounded_unsigned(encode_utf8(text), limit) {
        Some(number) => Some(SettingValue::Number(number)),
        None => None,
    }
}

/// What a text says for a setting.
pub open spec fn read_value(setting: Setting, text: Seq<char>) -> Option<SettingValue> {
    match setting {
        Setting::DefaultProtocol => match protocol_of(text) {
            Some(protocol) => Some(SettingValue::Protocol(protocol)),
            None => None,
        },
        Setting::EnableHttpScrape | Setting::EnableUdpScrape => if text == "true"@ {
            Some(SettingValue::Truth(true))
        } else if text == "false"@ {
            Some(SettingValue::Truth(false))
        } else {
            None
        },
        Setting::HttpAddr | Setting::UdpAddr => match socket_of(encode_utf8(text)) {
            Some(address) => Some(SettingValue::Address(address)),
            None => None,
        },
        Setting::AnnounceInterval | Setting::RateLimitPerMinute => read_number(
            text,
            u32::MAX as nat,
        ),
        Setting::PeerTimeout | Setting::PersistenceInterval => read_number(text, u64::MAX as nat),
        Setting::MaxConcurrentHttpRequests => read_number(text, usize::MAX as nat),
        Setting::DatabasePath => if text.len() > 0 {
            Some(SettingValue::Text(text))
        } else {
            None
        },
        Setting::LogFilter => Some(SettingValue::Text(text)),
    }
}

/// The place at which a setting's variable is applied.
spec fn place_of(setting: Setting) -> int {
    match setting {
        Setting::DefaultProtocol => 0,
        Setting::EnableHttpScrape => 1,
        Setting::EnableUdpScrape => 2,
        Setting::HttpAddr => 3,
        Setting::UdpAddr => 4,
        Setting::AnnounceInterval => 5,
        Setting::PeerTimeout => 6,
        Setting::PersistenceInterval => 7,
        Setting::RateLimitPerMinute => 8,
        Setting::MaxConcurrentHttpRequests => 9,
        Setting::DatabasePath => 10,
        Setting::LogFilter => 11,
    }
}

/// The setting whose variable is applied at a place.
spec fn setting_at(place: int) -> Setting {
    if place == 0 {
        Setting::DefaultProtocol
    } else if place == 1 {
        Setting::EnableHttpScrape
    } else if place == 2 {
        Setting::EnableUdpScrape
    } else if place == 3 {
        Setting::HttpAddr
    } else if place == 4 {
        Setting::UdpAddr
    } else if place == 5 {
        Setting::AnnounceInterval
    } else if place == 6 {
        Setting::PeerTimeout
    } else if place == 7 {
        Setting::PersistenceInterval
    } else if place == 8 {
        Setting::RateLimitPerMinute
    } else if place == 9 {
        Setting::MaxConcurrentHttpRequests
    } else if place == 10 {
        Setting::DatabasePath
    } else {
        Setting::LogFilter
    }
}

/// A variable sets its own setting and no other.
proof fn lemma_variable_sets(config: ConfigModel, place: int, text: Seq<char>, setting: Setting)
    requires
        0 <= place < 12,
    ensures
        variable_name(place) == variable_of(setting_at(place)),
        place_of(setting_at(place)) == place,
        setting_at(place_of(setting)) == setting,
        0 <= place_of(setting) < 12,
        with_variable(config, place, text) is Some <==> read_value(setting_at(place), text) is Some,
        with_variable(config, place, text) matches Some(next) ==> {
            &&& place_of(setting) == place ==> read_value(setting, text) == Some(
                value_in(next, setting),
            )
            &&& place_of(setting) != place ==> value_in(next, setting) == value_in(config, setting)
        },
{
    law_values_are_read(text, 0);
}

/// What the variables from one place on do to a setting.
proof fn lemma_settings_from(
    config: ConfigModel,
    environment: Seq<(String, String)>,
    place: int,
    setting: Setting,
)
    requires
        0 <= place <= 12,
    ensures
        ({
            let (after, fault) = with_environment(config, environment, place);
            &&& fault is None && place_of(setting) < place ==> value_in(after, setting) == value_in(
                config,
                setting,
            )
            &&& fault is None && place_of(setting) >= place ==> match variable(
                environment,
                variable_of(setting),
            ) {
                None => value_in(after, setting) == value_in(config, setting),
                Some(text) => read_value(setting, text) == Some(value_in(after, setting)),
            }
        }),
    decreases 12 - place,
{
    if place < 12 {
        lemma_variable_sets(config, place, Seq::empty(), setting);
        match variable(environment, variable_name(place)) {
            None => {
                lemma_settings_from(config, environment, place + 1, setting);
            },
            Some(text) => {
                lemma_variable_sets(config, place, text, setting);
                if let Some(next) = with_variable(config, place, text) {
                    lemma_settings_from(next, environment, place + 1, setting);
                }
            },
        }
    } else {
        lemma_variable_sets(config, 0, Seq::empty(), setting);
    }
}

/// Whether there is a fault from one place on.
proof fn lemma_fault_from(config: ConfigModel, environment: Seq<(String, String)>, place: int)
    requires
        0 <= place <= 12,
    ensures
        with_environment(config, environment, place).1 is None <==> forall|setting: Setting|
            place_of(setting) >= place ==> (variable(
                environment,
                #[trigger] variable_of(setting),
            ) matches Some(text) ==> read_value(setting, text) is Some),
    decreases 12 - place,
{
    if place < 12 {
        let here = setting_at(place);
        assert forall|setting: Setting| #[trigger] place_of(setting) == place implies setting
            == here by {
            lemma_variable_sets(config, place, Seq::empty(), setting);
        }
        lemma_variable_sets(config, place, Seq::empty(), here);
        match variable(environment, variable_of(here)) {
            None => {
                lemma_fault_from(config, environment, place + 1);
            },
            Some(text) => {
                lemma_variable_sets(config, place, text, here);
                if let Some(next) = with_variable(config, place, text) {
                    lemma_fault_from(next, environment, place + 1);
                }
            },
        }
    } else {
        assert forall|setting: Setting| #[trigger] place_of(setting) < 12 by {
            lemma_variable_sets(config, 0, Seq::empty(), setting);
        }
    }
}

/// Each variable of the environment sets its own setting: a setting whose variable
/// is unset stays as it was. A fault comes exactly where a variable that is set
/// cannot be read.
pub proof fn law_each_variable_sets_its_setting(
    config: ConfigModel,
    environment: Seq<(String, String)>,
    setting: Setting,
)
    ensures
        ({
            let (after, fault) = with_environment(config, environment, 0);
            &&& fault is None <==> forall|other: Setting|
                variable(environment, #[trigger] variable_of(other)) matches Some(text)
                    ==> read_value(other, text) is Some
            &&& fault is None ==> match variable(environment, variable_of(setting)) {
                None => value_in(after, setting) == value_in(config, setting),
                Some(text) => read_value(setting, text) == Some(value_in(after, setting)),
            }
        }),
{
    lemma_variable_sets(config, 0, Seq::empty(), setting);
    lemma_settings_from(config, environment, 0, setting);
    lemma_fault_from(config, environment, 0);
    assert forall|other: Setting| #[trigger] place_of(other) >= 0 by {
        lemma_variable_sets(config, 0, Seq::empty(), other);
    }
}

/// The fault that is reported names a variable that is set and cannot be read,
/// with its value; an empty database path is reported as such.
pub proof fn law_fault_names_the_variable(config: ConfigModel, environment: Seq<(String, String)>)
    ensures
        with_environment(config, environment, 0).1 matches Some(ConfigFault::Invalid {
            name,
            value,
            ..
        }) ==> variable(environment, name) == Some(value),
        with_environment(config, environment, 0).1 == Some(ConfigFault::EmptyDatabasePath)
            ==> variable(environment, "HIVE_DATABASE_PATH"@) is Some && variable(
            environment,
            "HIVE_DATABASE_PATH"@,
        )->Some_0.len() == 0,
        with_environment(config, environment, 0).1 != Some(ConfigFault::NoConcurrentRequests),
{
    lemma_fault(config, environment, 0);
}

/// What is reported from one variable on.
proof fn lemma_fault(config: ConfigModel, environment: Seq<(String, String)>, step: int)
    requires
        0 <= step,
    ensures
        with_environment(config, environment, step).1 matches Some(ConfigFault::Invalid {
            name,
            value,
            ..
        }) ==> variable(environment, name) == Some(value),
        with_environment(config, environment, step).1 == Some(ConfigFault::EmptyDatabasePath)
            ==> variable(environment, "HIVE_DATABASE_PATH"@) is Some && variable(
            environment,
            "HIVE_DATABASE_PATH"@,
        )->Some_0.len() == 0,
        with_environment(config, environment, step).1 != Some(ConfigFault::NoConcurrentRequests),
    decreases 12 - step,
{
    if step < 12 {
        match variable(environment, variable_name(step)) {
            None => {
                lemma_fault(config, environment, step + 1);
            },
            Some(value) => {
                if let Some(next) = with_variable(config, step, value) {
                    lemma_fault(next, environment, step + 1);
                }
            },
        }
    }
}

/// A truth value is one of two words, and a number is read in decimal.
pub proof fn law_values_are_read(text: Seq<char>, limit: nat)
    ensures
        truth_of(text) == Some(true) <==> text == "true"@,
        truth_of(text) == Some(false) <==> text == "false"@,
        number_of(text, limit) == bounded_unsigned(encode_utf8(text), limit),
{
    reveal_strlit("true");
    reveal_strlit("false");
    assert("true"@.len() == 4 && "false"@.len() == 5);
}

/// A protocol is named by one of three words, whose letters may have either case.
pub proof fn law_protocol_is_named(text: Seq<char>)
    ensures
        protocol_of(text) == Some(Protocol::Http) <==> is_word(
            encode_utf8(text),
            seq![104u8, 116u8, 116u8, 112u8],
        ),
        protocol_of(text) == Some(Protocol::Udp) <==> is_word(
            encode_utf8(text),
            seq![117u8, 100u8, 112u8],
        ),
        protocol_of(text) == Some(Protocol::Both) <==> is_word(
            encode_utf8(text),
            seq![98u8, 111u8, 116u8, 104u8],
        ),
{
    reveal_strlit("http");
    reveal_strlit("udp");
    reveal_strlit("both");
    vstd::utf8::is_ascii_chars_encode_utf8("http"@);
    vstd::utf8::is_ascii_chars_encode_utf8("udp"@);
    vstd::utf8::is_ascii_chars_encode_utf8("both"@);
    let http = seq![104u8, 116u8, 116u8, 112u8];
    let udp = seq![117u8, 100u8, 112u8];
    let both = seq![98u8, 111u8, 116u8, 104u8];
    assert(encode_utf8("http"@) =~= http);
    assert(encode_utf8("udp"@) =~= udp);
    assert(encode_utf8("both"@) =~= both);
    lemma_word(encode_utf8(text), http);
    lemma_word(encode_utf8(text), udp);
    lemma_word(encode_utf8(text), both);
    assert(http[0] != both[0]);
    assert(http.len() == 4 && udp.len() == 3 && both.len() == 4);
}

/// Whether bytes are a word of lower-case letters, but for the case of letters.
pub open spec fn is_word(bytes: Seq<u8>, word: Seq<u8>) -> bool {
    bytes.len() == word.len() && forall|i: int|
        0 <= i < word.len() ==> #[trigger] bytes[i] == word[i] || bytes[i] == word[i] - 32
}

/// A word is found by its lower case.
proof fn lemma_word(bytes: Seq<u8>, word: Seq<u8>)
    requires
        forall|i: int| 0 <= i < word.len() ==> 97 <= #[trigger] word[i] <= 122,
    ensures
        lowercase(bytes) == word <==> is_word(bytes, word),
{
    if lowercase(bytes) == word {
        assert forall|i: int| 0 <= i < word.len() implies #[trigger] bytes[i] == word[i] || bytes[i]
            == word[i] - 32 by {
            assert(lower(bytes[i]) == lowercase(bytes)[i]);
        }
    }
    if is_word(bytes, word) {
        assert forall|i: int| 0 <= i < word.len() implies #[trigger] lowercase(bytes)[i]
            == word[i] by {
            assert(bytes[i] == word[i] || bytes[i] == word[i] - 32);
            assert(97 <= word[i] <= 122);
        }
        assert(lowercase(bytes) =~= word);
    }
}

} // verus!
