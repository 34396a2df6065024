use ttrack_pro::config::{config_path, dial_timeout_text, parse_kv, parse_setting, Config, Environment};

fn no_env() -> Environment {
    Environment { socket: None, central_dir: None, key_file: None, local_dir: None, session_cap: None }
}

fn home() -> Option<Vec<u8>> {
    Some(b"/home/u".to_vec())
}

#[test]
fn defaults_are_as_documented() {
    let c = Config::load_with_home(home(), None, None, &no_env());
    assert_eq!(c.socket_path, b"/run/ttrackd.sock");
    assert_eq!(c.central_dir, b"/var/lib/ttrack");
    assert_eq!(c.key_file, b"/var/lib/ttrack/.ttrack.key");
    assert_eq!(c.local_dir, b"/home/u/.local/share/ttrack");
    assert_eq!(c.log_file, b"/var/log/ttrack/ttrack.log");
    assert_eq!(c.dial_timeout, 1_000_000_000);
    assert_eq!(c.eof_grace, 500_000_000);
    assert_eq!(c.session_cap, 10);
    let c = Config::load_with_home(None, None, None, &no_env());
    assert_eq!(c.local_dir, b"./.local/share/ttrack");
}

#[test]
fn the_home_directory_is_asked_for() {
    let c = Config::load(None, None, &no_env());
    let d = Config::default();
    assert_eq!(c.local_dir, d.local_dir);
    assert!(c.local_dir.ends_with(b"/.local/share/ttrack"));
    assert_ne!(c.local_dir, b".local/share/ttrack");
}

#[test]
fn settings_are_read() {
    assert_eq!(parse_setting(" a = b "), Some(("a".to_string(), "b".to_string())));
    assert_eq!(parse_setting("a=b=c"), Some(("a".to_string(), "b=c".to_string())));
    assert_eq!(parse_setting("a = b # note"), Some(("a".to_string(), "b".to_string())));
    assert_eq!(parse_setting("a=b#c"), Some(("a".to_string(), "b#c".to_string())));
    assert_eq!(parse_setting("a = # note"), Some(("a".to_string(), "# note".to_string())));
    assert_eq!(parse_setting("# a=b"), None);
    assert_eq!(parse_setting("  "), None);
    assert_eq!(parse_setting("no sign"), None);
    assert_eq!(parse_setting("="), Some(("".to_string(), "".to_string())));
}

#[test]
fn a_later_setting_counts() {
    let kv = parse_kv("a=1\nb=2\r\n#c=3\na=4\n");
    assert_eq!(kv.get("a").map(|s| s.as_str()), Some("4"));
    assert_eq!(kv.get("b").map(|s| s.as_str()), Some("2"));
    assert!(!kv.contains_key("c"));
    assert_eq!(kv.len(), 2);
}

#[test]
fn the_file_sets_values() {
    let text = "socket_path=/s\ncentral_dir=/c\nkey_file=k\nlog_file=/l\neof_grace_ms=20\nsession_cap=3\ndial_timeout_sec=2.5\n";
    assert_eq!(dial_timeout_text(text).as_deref(), Some("2.5"));
    let c = Config::load_with_home(home(), Some(text), Some(2_500_000_000), &no_env());
    assert_eq!(c.socket_path, b"/s");
    assert_eq!(c.central_dir, b"/c");
    assert_eq!(c.key_file, b"/c/k");
    assert_eq!(c.log_file, b"/l");
    assert_eq!(c.dial_timeout, 2_500_000_000);
    assert_eq!(c.eof_grace, 20_000_000);
    assert_eq!(c.session_cap, 3);
}

#[test]
fn empty_and_wrong_values_are_passed_over() {
    let text = "socket_path=\ncentral_dir=\neof_grace_ms=-1\nsession_cap=0\n";
    let c = Config::load_with_home(home(), Some(text), None, &no_env());
    assert_eq!(c.socket_path, b"/run/ttrackd.sock");
    assert_eq!(c.central_dir, b"/var/lib/ttrack");
    assert_eq!(c.eof_grace, 500_000_000);
    assert_eq!(c.session_cap, 10);
    let c = Config::load_with_home(home(), Some("log_file=\nkey_file=\n"), None, &no_env());
    assert_eq!(c.log_file, b"");
    assert_eq!(c.key_file, b"/var/lib/ttrack/");
}

#[test]
fn the_environment_comes_last() {
    let env = Environment {
        socket: Some("/es".to_string()),
        central_dir: Some("/ec".to_string()),
        key_file: Some("ek".to_string()),
        local_dir: Some("/el".to_string()),
        session_cap: Some("7".to_string()),
    };
    let c = Config::load_with_home(home(), Some("socket_path=/s\nsession_cap=3"), None, &env);
    assert_eq!(c.socket_path, b"/es");
    assert_eq!(c.central_dir, b"/ec");
    assert_eq!(c.key_file, b"/ec/ek");
    assert_eq!(c.local_dir, b"/el");
    assert_eq!(c.session_cap, 7);
    let env = Environment {
        socket: Some("".to_string()),
        session_cap: Some("0".to_string()),
        ..no_env()
    };
    let c = Config::load_with_home(home(), Some("socket_path=/s\nsession_cap=3"), None, &env);
    assert_eq!(c.socket_path, b"/s");
    assert_eq!(c.session_cap, 3);
}

#[test]
fn a_configuration_is_shown() {
    let c = Config::load_with_home(home(), None, None, &no_env());
    assert_eq!(
        c.check(),
        vec![
            "socket_path=/run/ttrackd.sock",
            "central_dir=/var/lib/ttrack",
            "key_file=/var/lib/ttrack/.ttrack.key",
            "local_dir=/home/u/.local/share/ttrack",
            "session_cap=10",
        ]
    );
}

#[test]
fn the_configuration_file_has_a_usual_place() {
    assert_eq!(config_path(None), "/etc/ttrack/ttrack.conf");
    assert_eq!(config_path(Some("/tmp/t.conf".to_string())), "/tmp/t.conf");
    assert_eq!(config_path(Some(String::new())), "");
}
