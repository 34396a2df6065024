use ttrack_pro::audit::{
    complete_central, complete_local, day_timestamp, export_notice, ls_all, ls_user, parse_date,
    play, play_bytes, prune, prune_confirmed, prune_cutoff, prune_question, readable_dirs,
    scan_session, search, search_jobs, tail_live, tail_request, tail_static, tree, Candidate, Query,
    Source, PRUNE_AGE,
};
use ttrack_pro::cast::{new_header, Cast, CastError, Event};
use ttrack_pro::config::{Config, Environment};
use ttrack_pro::store::{print_session_row, DirEntry, ListedSession, StoreError, UserDir};

fn config() -> Config {
    let env = Environment {
        socket: None,
        central_dir: Some("/c".to_string()),
        key_file: None,
        local_dir: None,
        session_cap: None,
    };
    Config::load_with_home(None, None, None, &env)
}

fn file(name: &str) -> DirEntry {
    DirEntry { name: name.as_bytes().to_vec(), is_dir: false, is_symlink: false, modified: 0 }
}

fn user(name: &str, files: &[&str]) -> UserDir {
    UserDir { user: name.to_string(), entries: Some(files.iter().map(|f| file(f)).collect()) }
}

fn unreadable(name: &str) -> UserDir {
    UserDir { user: name.to_string(), entries: None }
}

fn cast(timestamp: i64, command: &str, events: &[(f64, &str, &str)]) -> Cast {
    Cast {
        header: new_header(timestamp, command.to_string(), None, None),
        events: events
            .iter()
            .map(|(t, k, s)| Event(t.to_bits(), k.to_string(), s.to_string()))
            .collect(),
        intact: true,
    }
}

fn query(pattern: &str, insensitive: bool) -> Query {
    Query { pattern: pattern.to_string(), insensitive, from: None, to: None }
}

#[test]
fn the_last_lines_are_shown() {
    let c = cast(0, "x", &[(0.0, "o", "1\n2\n"), (1.0, "i", "typed\n"), (2.0, "o", "3\r\n4")]);
    assert_eq!(tail_static(&c, 3).unwrap(), vec!["2", "3", "4"]);
    assert_eq!(tail_static(&c, 20).unwrap(), vec!["1", "2", "3", "4"]);
    assert_eq!(tail_static(&c, 0).unwrap(), Vec::<String>::new());
    let mut broken = c;
    broken.intact = false;
    assert_eq!(tail_static(&broken, 3).err(), Some(CastError::Unreadable));
}

#[test]
fn the_daemon_may_refuse() {
    assert_eq!(tail_request("s-1"), "TAIL s-1\n");
    assert_eq!(tail_live(b"ERR tail requires root\n").as_deref(), Some("tail requires root"));
    assert_eq!(tail_live(b"ERR ERR x\n").as_deref(), Some("x"));
    assert_eq!(tail_live(b"ERR \xff").as_deref(), Some("\u{fffd}"));
    assert_eq!(tail_live(b"ERR"), None);
    assert_eq!(tail_live(b"{\"version\":2}"), None);
}

#[test]
fn a_session_is_searched() {
    let c = cast(
        50,
        "make all",
        &[(0.0, "o", "one error\nfine\nError two\n"), (1.0, "i", "error typed"), (2.0, "o", "error 3")],
    );
    assert_eq!(
        scan_session(&query("error", false), "ann", b"/c/ann/s.cast", &c).as_deref(),
        Some("ann/s.cast  make all\n  > one error\n  > error 3")
    );
    assert_eq!(
        scan_session(&query("ERROR", true), "ann", b"/c/ann/s.cast", &c).as_deref(),
        Some("ann/s.cast  make all\n  > one error\n  > Error two\n  > error 3")
    );
    assert_eq!(
        scan_session(&query("make", false), "ann", b"/c/ann/s.cast", &c).as_deref(),
        Some("ann/s.cast  make all")
    );
    assert_eq!(scan_session(&query("ERROR", false), "ann", b"/c/ann/s.cast", &c), None);
    assert_eq!(scan_session(&query("typed", false), "ann", b"/c/ann/s.cast", &c), None);
    assert_eq!(
        scan_session(&query("r\nfine", false), "ann", b"/c/ann/s.cast", &c).as_deref(),
        Some("ann/s.cast  make all")
    );
}

#[test]
fn case_is_folded_by_unicode() {
    let c = cast(0, "ÄPFEL", &[]);
    assert!(scan_session(&query("äpfel", true), "u", b"s", &c).is_some());
    assert!(scan_session(&query("äpfel", false), "u", b"s", &c).is_none());
}

#[test]
fn five_lines_at_most_are_shown() {
    let c = cast(0, "x", &[(0.0, "o", "a1\na2\na3\n"), (1.0, "o", "a4\na5\na6\na7\n")]);
    assert_eq!(
        scan_session(&query("a", false), "u", b"s.cast", &c).as_deref(),
        Some("u/s.cast  x\n  > a1\n  > a2\n  > a3\n  > a4\n  > a5")
    );
}

#[test]
fn only_sessions_in_time_are_searched() {
    let c = cast(50, "x", &[]);
    let at = |from, to| Query { pattern: "x".to_string(), insensitive: false, from, to };
    assert!(scan_session(&at(Some(50), Some(50)), "u", b"s", &c).is_some());
    assert!(scan_session(&at(Some(51), None), "u", b"s", &c).is_none());
    assert!(scan_session(&at(None, Some(49)), "u", b"s", &c).is_none());
}

#[test]
fn broken_sessions_are_not_found() {
    let mut c = cast(50, "x", &[]);
    c.intact = false;
    assert_eq!(scan_session(&query("x", false), "u", b"s", &c), None);
}

fn candidates() -> Vec<Candidate> {
    vec![
        Candidate { user: "a".to_string(), path: b"1".to_vec(), cast: Some(cast(0, "x", &[])) },
        Candidate { user: "b".to_string(), path: b"2".to_vec(), cast: None },
        Candidate { user: "c".to_string(), path: b"3".to_vec(), cast: Some(cast(0, "y", &[])) },
        Candidate { user: "d".to_string(), path: b"4".to_vec(), cast: Some(cast(0, "xx", &[])) },
    ]
}

#[test]
fn a_search_keeps_the_order() {
    assert_eq!(search(&query("x", false), &candidates()), vec!["a/1  x", "d/4  xx"]);
}

#[test]
fn a_search_can_be_split() {
    let q = query("x", false);
    let mut parts: Vec<String> = Vec::new();
    for c in candidates() {
        parts.extend(search(&q, &vec![c]));
    }
    assert_eq!(parts, search(&q, &candidates()));
}

#[test]
fn the_sessions_to_search_are_chosen() {
    let dirs = vec![user("ann", &["b.cast", "a.cast"]), unreadable("bob"), user("eve", &["c.cast"])];
    let jobs = search_jobs(&config(), &dirs, &Some("ann".to_string())).unwrap();
    assert_eq!(
        jobs,
        vec![
            ("ann".to_string(), b"/c/ann/a.cast".to_vec()),
            ("ann".to_string(), b"/c/ann/b.cast".to_vec())
        ]
    );
    assert_eq!(search_jobs(&config(), &dirs, &None), Err(1));
    assert_eq!(search_jobs(&config(), &dirs, &Some("bob".to_string())), Err(1));
    assert_eq!(search_jobs(&config(), &dirs, &Some("nobody".to_string())), Ok(vec![]));
}

#[test]
fn users_are_listed() {
    let dirs = vec![user("ann", &["b.cast", "a.cast", "x"]), user("bob", &[])];
    assert_eq!(
        ls_all(&config(), &dirs),
        vec!["USER                 SESSIONS", "ann                  2", "bob                  0"]
    );
    let dirs = vec![user("ann", &[]), unreadable("bob"), user("eve", &[])];
    assert_eq!(ls_all(&config(), &dirs).len(), 2);
    assert_eq!(readable_dirs(&dirs), 1);
}

#[test]
fn sessions_of_a_user_are_listed() {
    let lines = ls_user(&vec![ListedSession { path: b"/c/ann/a.cast".to_vec(), cast: None }]);
    assert_eq!(
        lines,
        vec![
            "STATUS   SESSION                       STARTED              DURATION   COMMAND"
                .to_string(),
            print_session_row("a.cast", &None)
        ]
    );
}

#[test]
fn the_store_is_shown_as_a_tree() {
    let dirs = vec![user("ann", &["b.cast", "a.cast"]), user("bob", &["c.cast"])];
    assert_eq!(
        tree(&config(), &dirs),
        vec![
            "/c",
            "├─ ann                   (2 sessions)",
            "│  ├─ a",
            "│  └─ b",
            "└─ bob                   (1 sessions)",
            "   └─ c",
        ]
    );
    let dirs = vec![user("ann", &[]), unreadable("bob")];
    assert_eq!(tree(&config(), &dirs), vec!["/c", "├─ ann                   (0 sessions)"]);
}

#[test]
fn pruning_takes_the_old_sessions() {
    let mut dirs = vec![user("ann", &["b.cast", "a.cast", "new.cast", "notes"]), user("bob", &["c.cast"])];
    let now = 1_700_000_000;
    let before = prune_cutoff(now);
    assert_eq!(before, now - 30 * 24 * 60 * 60);
    assert_eq!(PRUNE_AGE, 2_592_000);
    let ann = dirs[0].entries.as_mut().unwrap();
    ann[0].modified = before - 1;
    ann[1].modified = 0;
    ann[2].modified = now;
    dirs[1].entries.as_mut().unwrap()[0].modified = before;
    assert_eq!(
        prune(&config(), &dirs, before),
        vec![b"/c/ann/a.cast".to_vec(), b"/c/ann/b.cast".to_vec()]
    );
    assert_eq!(
        prune(&config(), &dirs, before + 1),
        vec![b"/c/ann/a.cast".to_vec(), b"/c/ann/b.cast".to_vec(), b"/c/bob/c.cast".to_vec()]
    );
    let dirs = vec![user("ann", &["a.cast"]), unreadable("bob"), user("eve", &["c.cast"])];
    assert_eq!(prune(&config(), &dirs, now), vec![b"/c/ann/a.cast".to_vec()]);
    assert_eq!(prune_cutoff(i64::MIN), i64::MIN);
}

#[test]
fn pruning_is_confirmed() {
    assert_eq!(
        prune_question(3),
        "about to delete 3 session(s). type 'yes' to confirm: "
    );
    assert!(prune_confirmed(" yes\n"));
    assert!(!prune_confirmed("y\n"));
    assert!(!prune_confirmed("YES"));
    assert!(!prune_confirmed(""));
}

#[test]
fn names_are_completed() {
    let dirs = vec![user("ann", &["b.cast", "a.cast"]), unreadable("bob"), user("eve", &["c.cast"])];
    assert_eq!(complete_central(&config(), &dirs), vec!["a", "b", "c"]);
    let mut entries = vec![file("z.cast"), file("y.txt"), file("x.cast")];
    entries[0].is_symlink = true;
    assert_eq!(complete_local(&entries), vec!["z", "x"]);
}

#[test]
fn dates_are_read() {
    assert_eq!(parse_date("1970-01-01"), Ok(0));
    assert_eq!(parse_date("1970-01-02"), Ok(86400));
    assert_eq!(parse_date("2024-02-29"), Ok(1709164800));
    assert_eq!(parse_date("1969-12-31"), Ok(-86400));
    for s in ["2023-02-29", "yesterday", "", "2024-13-01"] {
        assert_eq!(parse_date(s), Err(format!("invalid date '{s}' (expected YYYY-MM-DD)")));
    }
    assert_eq!(day_timestamp(719_163), 0);
    assert_eq!(day_timestamp(1), -62135596800);
}

#[test]
fn what_is_played_is_found() {
    let dirs = vec![user("ann", &["s.cast"])];
    assert!(matches!(play(&config(), "s", true, &dirs), Ok(Source::File)));
    match play(&config(), "s.cast", false, &dirs) {
        Ok(Source::Central(path, said)) => {
            assert_eq!(path, b"/c/ann/s.cast");
            assert_eq!(said, "--- session s.cast (user ann) ---");
        }
        other => panic!("{:?}", other),
    }
    assert!(matches!(play(&config(), "t", false, &dirs), Err(StoreError::NotFound)));
}

#[test]
fn playing_waits_from_event_to_event() {
    let c = cast(0, "x", &[(0.5, "o", "a"), (1.5, "i", "b"), (1.75, "o", "c")]);
    let steps: Vec<(f64, f64, Option<String>)> = play_bytes(&c)
        .into_iter()
        .map(|s| (f64::from_bits(s.from), f64::from_bits(s.to), s.text))
        .collect();
    assert_eq!(
        steps,
        vec![
            (0.0, 0.5, Some("a".to_string())),
            (0.5, 1.5, None),
            (1.5, 1.75, Some("c".to_string()))
        ]
    );
}

#[test]
fn an_export_is_announced() {
    assert_eq!(export_notice(b"/tmp/x"), "exported plaintext cast to /tmp/x");
}
