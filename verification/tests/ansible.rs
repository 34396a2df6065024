use chrono::{Local, TimeZone};
use ttrack_pro::ansible::{
    ansible_central_dir, ansible_local_dir, ansible_runs, cmd_ingest, cmd_list, cmd_show,
    event_lines, ingest_refusal, ingest_request, local_run_path, parse_run, requested_run_path,
    run_path, run_report, truncate, valid_run_id, HostStats, ListedRun, RawEvent, RunError,
};
use ttrack_pro::cast::{new_header, Cast, Event};
use ttrack_pro::config::{Config, Environment};
use ttrack_pro::incoming::{cmd_incoming, find_runs, place, printed_text, runs_report, Group};
use ttrack_pro::store::DirEntry;

fn config() -> Config {
    let env = Environment {
        socket: None,
        central_dir: Some("/c".to_string()),
        key_file: None,
        local_dir: Some("/l".to_string()),
        session_cap: None,
    };
    Config::load_with_home(None, None, None, &env)
}

fn event(kind: &str) -> RawEvent {
    RawEvent {
        kind: kind.to_string(),
        id: String::new(),
        playbook: String::new(),
        user: String::new(),
        started: 0,
        controller: String::new(),
        name: String::new(),
        module: String::new(),
        host: String::new(),
        status: String::new(),
        rc: 0,
        t: 0,
        stdout: String::new(),
        ok: 0,
        changed: 0,
        failed: 0,
        unreachable: 0,
        skipped: 0,
    }
}

fn run_event(id: &str, started: f64) -> RawEvent {
    RawEvent {
        id: id.to_string(),
        playbook: "site.yml".to_string(),
        user: "ann".to_string(),
        controller: "ctl".to_string(),
        started: started.to_bits(),
        ..event("run")
    }
}

fn report() -> Vec<Option<RawEvent>> {
    vec![
        Some(run_event("run-1", 1_700_000_000.75)),
        None,
        Some(RawEvent { name: "first".to_string(), ..event("play") }),
        Some(event("play")),
        Some(RawEvent {
            name: "Install a very long package name here".to_string(),
            host: "web1".to_string(),
            module: "apt".to_string(),
            status: "ok".to_string(),
            rc: -1,
            t: 1.5f64.to_bits(),
            stdout: "one\ntwo\nthree\nfour".to_string(),
            ..event("task")
        }),
        Some(RawEvent { host: "web2".to_string(), ok: 1, ..event("stats") }),
        Some(RawEvent { host: "web1".to_string(), ok: 2, failed: 3, ..event("stats") }),
        Some(RawEvent { host: "web2".to_string(), ok: 4, skipped: 5, ..event("stats") }),
        Some(event("other")),
    ]
}

#[test]
fn a_report_is_split_into_lines() {
    assert_eq!(event_lines(b"a\n\nb\n"), vec![b"a".to_vec(), b"b".to_vec()]);
    assert_eq!(event_lines(b"\n"), Vec::<Vec<u8>>::new());
}

#[test]
fn a_report_is_taken_apart() {
    let run = parse_run(&report());
    assert_eq!(run.run_id, "run-1");
    assert_eq!(run.playbook, "site.yml");
    assert_eq!(run.user, "ann");
    assert_eq!(run.controller, "ctl");
    assert_eq!(f64::from_bits(run.started), 1_700_000_000.75);
    assert_eq!(run.plays, vec!["first"]);
    assert_eq!(run.tasks.len(), 1);
    assert_eq!(run.tasks[0].rc, -1);
    assert_eq!(run.tasks[0].stdout_snippet, "one\ntwo\nthree\nfour");
    assert_eq!(run.host_stats.len(), 2);
    let web2 = run.host_stats.iter().find(|r| r.host == "web2").unwrap();
    assert_eq!(
        web2.stats,
        HostStats { ok: 4, changed: 0, failed: 0, unreachable: 0, skipped: 5 }
    );
}

#[test]
fn lines_that_cannot_be_read_do_not_count() {
    let legible: Vec<Option<RawEvent>> = report().into_iter().filter(|e| e.is_some()).collect();
    assert_eq!(legible.len(), report().len() - 1);
    let durations = vec!["1.50".to_string()];
    assert_eq!(
        cmd_show(&parse_run(&legible), &durations),
        cmd_show(&parse_run(&report()), &durations)
    );
}

#[test]
fn long_output_is_cut() {
    let mut ev = event("task");
    ev.stdout = format!("{}é", "x".repeat(8191));
    let run = parse_run(&vec![Some(ev)]);
    assert_eq!(run.tasks[0].stdout_snippet, format!("{}...", "x".repeat(8191)));
    let mut ev = event("task");
    ev.stdout = "y".repeat(8192);
    let run = parse_run(&vec![Some(ev)]);
    assert_eq!(run.tasks[0].stdout_snippet, "y".repeat(8192));
}

#[test]
fn names_of_runs_are_restricted() {
    assert!(valid_run_id("abcde"));
    assert!(valid_run_id("Run_2024-01"));
    assert!(valid_run_id("żółwik"));
    assert!(valid_run_id(&"a".repeat(64)));
    for id in ["abcd", "", "../../x", "a b c", "run.1", "run/1"] {
        assert!(!valid_run_id(id));
    }
    assert!(!valid_run_id(&"a".repeat(65)));
}

#[test]
fn runs_have_places() {
    let cfg = config();
    assert_eq!(ansible_local_dir(&cfg), b"/l/ansible");
    assert_eq!(local_run_path(&cfg, "run-1"), b"/l/ansible/run-1.ajsonl");
    assert_eq!(ansible_central_dir(&cfg, "ann"), b"/c/ann/ansible");
    assert_eq!(run_path(&cfg, "ann", "run-1"), b"/c/ann/ansible/run-1.ajsonl");
    assert_eq!(requested_run_path(&cfg, "ann", "run-1").unwrap(), b"/c/ann/ansible/run-1.ajsonl");
    assert!(matches!(
        requested_run_path(&cfg, "ann", "../../x"),
        Err(RunError::InvalidRunId(id)) if id == "../../x"
    ));
    let file = |name: &str, is_symlink| DirEntry {
        name: name.as_bytes().to_vec(),
        is_dir: false,
        is_symlink,
        modified: 0,
    };
    let entries =
        vec![file("b.ajsonl", false), file("a.ajsonl", false), file("c.ajsonl", true), file("d", false)];
    assert_eq!(ansible_runs(&entries), vec!["a", "b"]);
}

#[test]
fn runs_are_listed() {
    assert_eq!(cmd_list("ann", &vec![]), vec!["no ansible runs for ann"]);
    let runs = vec![
        ListedRun { id: "run-1".to_string(), playbook: Some("site.yml".to_string()) },
        ListedRun { id: "run-2".to_string(), playbook: None },
    ];
    assert_eq!(
        cmd_list("ann", &runs),
        vec![
            format!("{:<40} {}", "RUN ID", "PLAYBOOK"),
            format!("{:<40} {}", "run-1", "site.yml"),
            format!("{:<40} {}", "run-2", "(unreadable)"),
        ]
    );
}

#[test]
fn a_run_is_shown() {
    let run = parse_run(&report());
    let when = Local
        .timestamp_opt(1_700_000_000, 0)
        .single()
        .unwrap()
        .format("%Y-%m-%d %H:%M:%S")
        .to_string();
    let stats = |h: &str, n: [u64; 5]| {
        format!("{:<20} {:>6} {:>8} {:>7} {:>12} {:>8}", h, n[0], n[1], n[2], n[3], n[4])
    };
    let expected = vec![
        "Run:        run-1".to_string(),
        "Playbook:   site.yml".to_string(),
        "User:       ann".to_string(),
        "Controller: ctl".to_string(),
        format!("Started:    {when}"),
        "Plays:      first".to_string(),
        "".to_string(),
        "TASKS:".to_string(),
        format!(
            "{:<30} {:<20} {:<15} {:<10} {:<8} {}",
            "NAME", "HOST", "MODULE", "STATUS", "RC", "DURATION"
        ),
        format!(
            "{:<30} {:<20} {:<15} {:<10} {:<8} {}",
            "Install a very long package n…", "web1", "apt", "ok", -1, "1.50s"
        ),
        "  one".to_string(),
        "  two".to_string(),
        "  three".to_string(),
        "".to_string(),
        "STATS:".to_string(),
        format!(
            "{:<20} {:>6} {:>8} {:>7} {:>12} {:>8}",
            "HOST", "OK", "CHANGED", "FAILED", "UNREACHABLE", "SKIPPED"
        ),
        stats("web1", [2, 0, 3, 0, 0]),
        stats("web2", [4, 0, 0, 0, 5]),
    ];
    assert_eq!(cmd_show(&run, &vec!["1.50".to_string()]), expected);
}

#[test]
fn an_empty_run_is_shown() {
    let run = parse_run(&vec![]);
    let lines = cmd_show(&run, &vec![]);
    assert_eq!(lines, vec!["Run:        ", "Playbook:   ", "User:       ", "Controller: "]);
    let lines = run_report(&run, &Some("then".to_string()), &vec![]);
    assert_eq!(lines[4], "Started:    then");
    let run = parse_run(&vec![Some(run_event("run-1", -5.0))]);
    assert_eq!(cmd_show(&run, &vec![]).len(), 4);
}

#[test]
fn a_report_is_taken_in_under_its_name() {
    assert_eq!(cmd_ingest(&report()).unwrap(), "run-1");
    assert!(matches!(cmd_ingest(&vec![None, Some(event("play"))]), Err(RunError::NoRunEvent)));
    assert!(matches!(
        cmd_ingest(&vec![Some(run_event("x", 0.0)), Some(run_event("run-2", 0.0))]),
        Err(RunError::InvalidRunId(id)) if id == "x"
    ));
    assert_eq!(ingest_request("run-1"), "ANSIBLE run-1\n");
    assert_eq!(ingest_refusal(" ERR unknown command\n").as_deref(), Some("ERR unknown command"));
    assert_eq!(ingest_refusal("OK\n"), None);
}

#[test]
fn texts_are_truncated_with_a_mark() {
    assert_eq!(truncate("abc", 3), "abc");
    assert_eq!(truncate("abcd", 3), "abc…");
    assert_eq!(truncate("aé", 2), "a…");
}

fn session(timestamp: i64, output: &str) -> Cast {
    Cast {
        header: new_header(timestamp, "sshd".to_string(), None, None),
        events: vec![
            Event(0, "o".to_string(), output.to_string()),
            Event(0, "i".to_string(), "ansible-tmp-9.9-9-9".to_string()),
        ],
        intact: true,
    }
}

#[test]
fn traces_of_runs_are_grouped() {
    let dir = "ansible-tmp-1700000000.5-12-345";
    let casts = vec![
        session(1000, &format!("mkdir {dir}; python AnsiballZ_setup.py; AnsiballZ_setup.py")),
        session(1100, &format!("{dir}/AnsiballZ_apt.py")),
        session(1300, &format!("{dir}")),
        session(1000, "ls"),
    ];
    let groups = find_runs(&casts);
    assert_eq!(groups.len(), 2);
    assert_eq!(groups[0].tmpdir, dir);
    assert_eq!(groups[0].modules, vec!["setup", "apt"]);
    assert_eq!((groups[0].first_ts, groups[0].last_ts), (1000, 1100));
    assert_eq!(groups[1].modules, Vec::<String>::new());
    assert_eq!(groups[1].first_ts, 1300);
    assert_eq!(printed_text(&casts[3].events), "ls");
}

#[test]
fn repeats_are_dropped_only_when_a_run_is_seen_again() {
    let mut groups: Vec<Group> = Vec::new();
    let modules = vec!["a".to_string(), "a".to_string()];
    place(&mut groups, "d", &modules, 0);
    assert_eq!(groups[0].modules, vec!["a", "a"]);
    place(&mut groups, "d", &vec!["b".to_string(), "a".to_string()], 119);
    assert_eq!(groups[0].modules, vec!["a", "b", "a"]);
    place(&mut groups, "d", &modules, -1);
    assert_eq!(groups.len(), 2);
    place(&mut groups, "d", &modules, i64::MIN);
    place(&mut groups, "d", &modules, i64::MAX);
    assert_eq!(groups.len(), 4);
}

#[test]
fn traces_of_runs_are_shown() {
    assert_eq!(cmd_incoming("ann", 0, &vec![]), vec!["no sessions for ann"]);
    assert_eq!(
        cmd_incoming("ann", 1, &vec![session(0, "ls")]),
        vec![
            "no ansible activity found in sessions for ann",
            "hint: ttrack ansible-ingest imports runs from a callback plugin"
        ]
    );
    let dir = "ansible-tmp-1700000000.123456789-12345-123456789";
    let when =
        Local.timestamp_opt(1000, 0).single().unwrap().format("%Y-%m-%d %H:%M:%S").to_string();
    let cut = "ansible-tmp-1700000000.123456789-12345-…";
    let lines =
        cmd_incoming("ann", 1, &vec![session(1000, &format!("{dir} AnsiballZ_a.py AnsiballZ_b.py"))]);
    assert_eq!(
        lines,
        vec![
            format!("{:<40} {:<22} {}", "TMPDIR", "FIRST SEEN", "MODULES"),
            format!("{:<40} {:<22} {}", cut, when, "a, b"),
        ]
    );
    let groups = vec![Group { tmpdir: "d".to_string(), modules: vec![], first_ts: 0, last_ts: 0 }];
    let lines = runs_report("ann", 1, &groups, &vec![None]);
    assert_eq!(lines[1], format!("{:<40} {:<22} {}", "d", "?", ""));
}

#[test]
fn a_report_can_be_read_in_two_parts() {
    let mut lines = event_lines(b"a\n\nb");
    lines.extend(event_lines(b"\nc\n"));
    assert_eq!(event_lines(b"a\n\nb\n\nc\n"), lines);
    let mut second = vec![
        Some(RawEvent { name: "second".to_string(), ..event("play") }),
        Some(RawEvent { host: "web1".to_string(), ok: 9, ..event("stats") }),
        Some(RawEvent { name: "last".to_string(), ..event("task") }),
    ];
    let mut all = report();
    all.append(&mut second);
    let run = parse_run(&all);
    assert_eq!(run.run_id, "run-1");
    assert_eq!(run.plays, vec!["first", "second"]);
    assert_eq!(run.tasks.len(), 2);
    assert_eq!(run.tasks[1].name, "last");
    let ok = |host: &str| run.host_stats.iter().find(|r| r.host == host).unwrap().stats.ok;
    assert_eq!((ok("web1"), ok("web2"), run.host_stats.len()), (9, 4, 2));
    let mut all = report();
    all.push(Some(run_event("run-2", 1.0)));
    assert_eq!(parse_run(&all).run_id, "run-2");
}

#[test]
fn runs_are_shown_with_the_time_of_their_first_session() {
    let out = "ansible-tmp-1700000000.5-42-7/AnsiballZ_copy.py";
    let row = |ts: i64| {
        let when = Local.timestamp_opt(ts, 0).single().unwrap();
        format!(
            "{:<40} {:<22} {}",
            "ansible-tmp-1700000000.5-42-7",
            when.format("%Y-%m-%d %H:%M:%S").to_string(),
            "copy"
        )
    };
    let near = cmd_incoming("ann", 2, &vec![session(5000, out), session(5119, out)]);
    assert_eq!(near[1..], [row(5000)]);
    let back = cmd_incoming("ann", 2, &vec![session(5000, out), session(4881, out)]);
    assert_eq!(back[1..], [row(5000)]);
    let far = cmd_incoming("ann", 3, &vec![session(5000, out), session(5120, out)]);
    assert_eq!(far[1..], [row(5000), row(5120)]);
}
