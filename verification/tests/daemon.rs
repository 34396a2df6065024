use ttrack_pro::config::{Config, Environment};
use ttrack_pro::daemon::{handle, handle_rec, handle_tail, path_of_session, Action, Registry};

fn config(cap: &str) -> Config {
    let env = Environment {
        socket: None,
        central_dir: Some("/c".to_string()),
        key_file: None,
        local_dir: None,
        session_cap: Some(cap.to_string()),
    };
    Config::load_with_home(None, None, None, &env)
}

fn refusal(a: Action) -> &'static str {
    match a {
        Action::Refuse(line) => line,
        other => panic!("{:?}", other),
    }
}

#[test]
fn recordings_are_capped() {
    let cfg = config("1");
    let mut reg = Registry::new();
    assert!(matches!(handle("REC\n", 1000, &cfg, &reg), Action::Record));
    reg.insert("a".to_string(), b"/c/u/a.cast".to_vec());
    assert_eq!(reg.len(), 1);
    assert_eq!(refusal(handle("REC\n", 0, &cfg, &reg)), "ERR session cap reached\n");
    reg.remove("a");
    assert_eq!(reg.len(), 0);
    assert!(matches!(handle(" REC ", 1000, &cfg, &reg), Action::Record));
}

#[test]
fn only_root_follows() {
    let cfg = config("1");
    let reg = Registry::new();
    assert_eq!(refusal(handle("TAIL x\n", 1000, &cfg, &reg)), "ERR tail requires root\n");
    match handle("TAIL   x.cast \n", 0, &cfg, &reg) {
        Action::Tail(id) => assert_eq!(id, "x.cast"),
        other => panic!("{:?}", other),
    }
}

#[test]
fn other_requests_are_refused() {
    let cfg = config("1");
    let reg = Registry::new();
    for line in ["", "rec", "RECORD", "TAIL", "TAIL \n", "ANSIBLE run-1\n"] {
        assert_eq!(refusal(handle(line, 0, &cfg, &reg)), "ERR unknown command\n");
    }
}

#[test]
fn a_live_session_is_followed_by_either_name() {
    let mut reg = Registry::new();
    reg.insert("s-1".to_string(), b"/c/u/s-1.cast".to_vec());
    assert_eq!(handle_tail(&reg, "s-1"), Ok(b"/c/u/s-1.cast".to_vec()));
    assert_eq!(handle_tail(&reg, "s-1.cast"), Ok(b"/c/u/s-1.cast".to_vec()));
    assert_eq!(handle_tail(&reg, "s-2.cast"), Err("ERR no active session s-2\n".to_string()));
    reg.remove("s-1");
    assert_eq!(handle_tail(&reg, "s-1"), Err("ERR no active session s-1\n".to_string()));
    assert_eq!(reg.get("s-1"), None);
}

#[test]
fn a_session_is_kept_in_the_directory_of_its_user() {
    let cfg = config("1");
    assert_eq!(path_of_session(&cfg, "ann", "x"), b"/c/ann/x.cast");
    let (id, path) = handle_rec(&cfg, "ann", 42);
    assert!(id.ends_with("-42"));
    assert_eq!(path, format!("/c/ann/{id}.cast").into_bytes());
    let stamp = &id[..id.len() - 3];
    assert_eq!(stamp.len(), 25);
    assert_eq!(&stamp[8..9], "T");
    assert_eq!(&stamp[15..16], ".");
    assert!(stamp.chars().all(|c| c.is_ascii_digit() || c == 'T' || c == '.'));
}
