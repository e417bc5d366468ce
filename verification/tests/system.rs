use shadow_rs::config_file::{config_filename, is_extension_key, load_config_value};
use shadow_rs::sim_config::error::ConfigError;
use shadow_rs::sim_config::options::LogLevel;
use shadow_rs::status::{ShadowStatusBarState, StatusLogger};
use shadow_rs::system::{
    BuildInfo, GlibVersion, NumberFault, build_info_lines, mitigation_is_on, parse_number,
    variable_log_level, verify_glib_version, verify_supported_system, version,
};
use shadow_rs::time::EmulatedTime;

fn release(text: &str) -> Result<(), ConfigError> {
    verify_supported_system(Some("Linux"), Some(text))
}

#[test]
fn kernels_since_5_4_are_supported() {
    assert!(release("5.4").is_ok());
    assert!(release("5.4.0-generic").is_ok());
    assert!(release("6.0.1").is_ok());
    assert_eq!(
        release("5.3.9").unwrap_err().to_string(),
        "kernel version 5.3 is older than minimum supported version 5.4"
    );
    assert!(release("4.19").is_err());
}

#[test]
fn releases_that_are_no_versions_are_refused() {
    let err = release("x.4").unwrap_err();
    assert_eq!(err.to_string(), "Parsing major version number 'x'");
    assert_eq!(err.root_cause(), "invalid digit found in string");
    let err = release("5").unwrap_err();
    assert_eq!(err.to_string(), "Couldn't find minor version in : 5");
    let err = release("5.").unwrap_err();
    assert_eq!(err.to_string(), "Parsing minor version number ''");
    assert_eq!(err.root_cause(), "cannot parse integer from empty string");
    let err = release("5.99999999999").unwrap_err();
    assert_eq!(err.root_cause(), "number too large to fit in target type");
}

#[test]
fn other_systems_are_refused() {
    let err = verify_supported_system(Some("Darwin"), Some("5.4")).unwrap_err();
    assert_eq!(err.to_string(), "Unsupported sysname: Darwin");
    let err = verify_supported_system(None, Some("5.4")).unwrap_err();
    assert_eq!(err.to_string(), "Decoding system name");
    let err = verify_supported_system(Some("Linux"), None).unwrap_err();
    assert_eq!(err.to_string(), "Decoding system release");
}

#[test]
fn numbers_are_parsed_as_the_standard_library_does() {
    for text in [
        "", "+", "-", "0", "+7", "-12", "007", "2147483647", "2147483648", "-2147483648",
        "-2147483649", "1_0", "99999999999x", "9999999999x", "1a2", "--1", " 1", "½",
    ] {
        let expected: Result<i32, String> = text.parse::<i32>().map_err(|e| e.to_string());
        let actual = parse_number(text).map_err(|fault| fault.to_string());
        assert_eq!(actual, expected, "{text}");
    }
    assert_eq!(parse_number("-2147483649"), Err(NumberFault::TooSmall));
}

#[test]
fn glib_must_fit() {
    let compiled = GlibVersion { major: 2, minor: 66, micro: 1 };
    let running = GlibVersion { major: 2, minor: 58, micro: 3 };
    assert!(verify_glib_version(compiled, compiled, None).is_ok());
    let err = verify_glib_version(compiled, running, Some("too old")).unwrap_err();
    assert_eq!(
        err.to_string(),
        "The version of the run-time GLib library (2.58.3) is not compatible with the version \
         against which Shadow was compiled (2.66.1). GLib message: 'too old'."
    );
    let broken = GlibVersion { major: 2, minor: 40, micro: 0 };
    let err = verify_glib_version(broken, broken, None).unwrap_err();
    assert!(err.to_string().starts_with("You compiled against GLib version 2.40.0, which has bugs"));
}

#[test]
fn version_names_the_commit() {
    assert_eq!(version("3.2.0", None, Some("2025-01-01")), "3.2.0");
    assert_eq!(version("3.2.0", Some("v3.2.0-1"), Some("2025-01-01")), "3.2.0 — v3.2.0-1 2025-01-01");
}

#[test]
fn build_info_has_six_lines() {
    let info = BuildInfo {
        version: "3.2.0".to_string(),
        glib: GlibVersion { major: 2, minor: 66, micro: 1 },
        timestamp: "2025-01-01 10:00:00".to_string(),
        branch: None,
        details: "Release build".to_string(),
    };
    assert_eq!(
        build_info_lines(&info),
        [
            "Shadow 3.2.0",
            "GLib 2.66.1",
            "Built on 2025-01-01 10:00:00",
            "Built from git branch <unknown>",
            "Release build",
            "For more information, visit https://shadow.github.io or https://github.com/shadow",
        ]
    );
}

#[test]
fn notable_variables_are_logged() {
    assert_eq!(variable_log_level("LD_PRELOAD"), LogLevel::Info);
    assert_eq!(variable_log_level("G_SLICE"), LogLevel::Info);
    assert_eq!(variable_log_level("HOME"), LogLevel::Trace);
}

#[test]
fn mitigation_bit_is_read() {
    assert!(mitigation_is_on(4));
    assert!(mitigation_is_on(5));
    assert!(!mitigation_is_on(3));
    assert!(!mitigation_is_on(0));
}

#[test]
fn status_line_tells_the_progress() {
    let mut state = ShadowStatusBarState::new(EmulatedTime::max());
    assert_eq!(state.current, EmulatedTime::simulation_start());
    state.num_failed_processes = 2;
    assert_eq!(
        state.describe(50, "00:00:30.000", "00:01:00", "00:00:02"),
        "50% — simulated: 00:00:30.000/00:01:00, realtime: 00:00:02, processes failed: 2"
    );
}

#[test]
fn status_is_shown_in_place_on_a_terminal() {
    let mut state = ShadowStatusBarState::new(EmulatedTime::max());
    state.num_failed_processes = 3;
    assert_eq!(StatusLogger::new(state, true), StatusLogger::Bar(state));
    assert_eq!(StatusLogger::new(state, false), StatusLogger::Printer(state));
    assert_eq!(StatusLogger::new(state, true).status().num_failed_processes, 3);
    assert_eq!(*StatusLogger::new(state, false).status(), state);
}

fn load(text: &str, extended: bool) -> Result<serde_yaml::Value, ConfigError> {
    load_config_value(Ok(text.as_bytes().to_vec()), extended)
}

#[test]
fn config_file_name_may_be_the_standard_input() {
    assert_eq!(config_filename("-"), "/dev/stdin");
    assert_eq!(config_filename("shadow.yaml"), "shadow.yaml");
}

#[test]
fn config_file_is_parsed_as_yaml() {
    let value = load("general:\n  stop_time: 60\nx-note: 1\n", false).unwrap();
    assert_eq!(value["general"]["stop_time"], serde_yaml::Value::from(60));
    assert_eq!(value["x-note"], serde_yaml::Value::from(1));
}

#[test]
fn extended_config_file_is_merged_and_loses_extensions() {
    let text = "x-base: &base\n  a: 1\nhost:\n  <<: *base\n  b: 2\n  x-inner: 3\n7: seven\n";
    let value = load(text, true).unwrap();
    let keys: Vec<_> = value.as_mapping().unwrap().keys().cloned().collect();
    assert_eq!(keys, [serde_yaml::Value::from("host"), serde_yaml::Value::from(7)]);
    assert_eq!(value["host"]["a"], serde_yaml::Value::from(1));
    assert_eq!(value["host"]["b"], serde_yaml::Value::from(2));
    assert_eq!(value["host"]["x-inner"], serde_yaml::Value::from(3));
    assert!(value["host"].get("<<").is_none());
}

#[test]
fn config_file_without_entries_stays_as_it_is() {
    assert_eq!(load("- x-a\n- b\n", true).unwrap(), load("- x-a\n- b\n", false).unwrap());
}

#[test]
fn config_file_failures_are_told_apart() {
    let err = load_config_value(Err("gone".to_string()), true).unwrap_err();
    assert_eq!(err.to_string(), "Could not open config file");
    assert_eq!(err.root_cause(), "gone");
    let err = load("a: [1", true).unwrap_err();
    assert_eq!(err.to_string(), "Could not parse configuration file as yaml");
    let err = load("a: 1\na: 2\n", true).unwrap_err();
    assert_eq!(err.to_string(), "Could not parse configuration file as yaml");
    let err = load("a:\n  <<: 3\n", true).unwrap_err();
    assert_eq!(err.to_string(), "Could not merge '<<' keys");
}

#[test]
fn extension_keys_begin_with_x() {
    assert!(is_extension_key("x-note"));
    assert!(is_extension_key("x-"));
    assert!(!is_extension_key("xnote"));
    assert!(!is_extension_key("X-note"));
    assert!(!is_extension_key("x"));
}
