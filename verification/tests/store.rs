use chrono::{Local, TimeZone};
use ttrack_pro::cast::{
    new_header, read_event, read_header, Cast, CastReader, CastWriter, Event,
};
use ttrack_pro::config::{Config, Environment};
use ttrack_pro::crypto::{encrypt_stream, is_encrypted, CryptoError, FrameSealer};
use ttrack_pro::store::{
    cast_files, central_dir, duration, find_central, human_duration, id_at, ingest_local,
    ingest_moves, ingest_path, list_local, local_dir, new_id, new_local_path, new_name,
    old_cast_files, print_session_row, read_plain_cast, row_at, session_name, user_or_uid,
    user_sessions, users, wanted_session, DirEntry, Ingest, ListedSession, StoreError, UserDir,
};

fn config() -> Config {
    let env = Environment {
        socket: None,
        central_dir: Some("/c".to_string()),
        key_file: None,
        local_dir: Some("/l".to_string()),
        session_cap: None,
    };
    Config::load_with_home(None, None, None, &env)
}

fn file(name: &[u8]) -> DirEntry {
    DirEntry { name: name.to_vec(), is_dir: false, is_symlink: false, modified: 0 }
}

fn dir(name: &[u8]) -> DirEntry {
    DirEntry { name: name.to_vec(), is_dir: true, is_symlink: false, modified: 0 }
}

fn link(name: &[u8]) -> DirEntry {
    DirEntry { name: name.to_vec(), is_dir: false, is_symlink: true, modified: 0 }
}

fn user(name: &str, files: &[&str]) -> UserDir {
    UserDir {
        user: name.to_string(),
        entries: Some(files.iter().map(|f| file(f.as_bytes())).collect()),
    }
}

fn cast(timestamp: i64, command: &str, times: &[f64]) -> Cast {
    Cast {
        header: new_header(timestamp, command.to_string(), None, None),
        events: times
            .iter()
            .map(|t| Event(t.to_bits(), "o".to_string(), "x".to_string()))
            .collect(),
        intact: true,
    }
}

#[test]
fn directories_are_those_of_the_configuration() {
    assert_eq!(local_dir(&config()), b"/l");
    assert_eq!(central_dir(&config()), b"/c");
}

#[test]
fn users_are_directories_with_plain_names() {
    let entries = vec![
        dir(b"zoe"),
        dir(b"a.b-c_1"),
        dir("żółw".as_bytes()),
        dir(b"with space"),
        dir(b"bad\xff"),
        file(b"file"),
        link(b"link"),
        dir(b"Ann"),
    ];
    assert_eq!(users(&entries), vec!["Ann", "a.b-c_1", "zoe", "żółw"]);
    assert_eq!(users(&vec![]), Vec::<String>::new());
}

#[test]
fn sessions_are_files_with_the_extension() {
    let entries = vec![
        file(b"b.cast"),
        file(b"a.cast"),
        link(b"c.cast"),
        file(b"d.txt"),
        file(b".cast"),
        file(b"e.cast.bak"),
    ];
    let expected = vec![b"/c/u/a.cast".to_vec(), b"/c/u/b.cast".to_vec()];
    assert_eq!(cast_files(b"/c/u", &entries), expected);
    assert_eq!(user_sessions(&config(), "u", &entries), expected);
}

#[test]
fn a_session_is_found_by_name() {
    let dirs = vec![user("ann", &["s1.cast", "s2.cast"]), user("bob", &["s2.cast", "s3.cast"])];
    let cfg = config();
    assert_eq!(
        find_central(&cfg, "s2", &dirs),
        Ok((b"/c/ann/s2.cast".to_vec(), "ann".to_string()))
    );
    assert_eq!(
        find_central(&cfg, "s3.cast", &dirs),
        Ok((b"/c/bob/s3.cast".to_vec(), "bob".to_string()))
    );
    assert_eq!(find_central(&cfg, "s4", &dirs), Err(StoreError::NotFound));
    assert_eq!(find_central(&cfg, "", &dirs), Err(StoreError::NotFound));
    assert_eq!(wanted_session("s.cast.cast"), "s");
    assert_eq!(session_name(b"/c/ann/s.2.cast"), "s.2");
}

#[test]
fn an_unreadable_directory_is_in_the_way() {
    let dirs = vec![
        user("ann", &["s1.cast"]),
        UserDir { user: "bob".to_string(), entries: None },
        user("eve", &["s3.cast"]),
    ];
    assert!(find_central(&config(), "s1", &dirs).is_ok());
    assert_eq!(find_central(&config(), "s3", &dirs), Err(StoreError::Unreadable(1)));
}

#[test]
fn a_new_session_is_found() {
    let name = new_name(77);
    let id = name.strip_suffix(".cast").unwrap();
    assert!(id.ends_with("-77"));
    let dirs = vec![user("ann", &[name.as_str()])];
    assert!(find_central(&config(), id, &dirs).is_ok());
    assert!(find_central(&config(), &name, &dirs).is_ok());
    assert_ne!(new_id(1), new_id(2));
    assert_eq!(id_at("stamp", -3), "stamp--3");
    let path = new_local_path(&config(), 8);
    assert!(path.starts_with(b"/l/2"));
    assert!(path.ends_with(b"-8.cast"));
}

#[test]
fn stored_files_are_read_in_plain() {
    let key = [5u8; 32];
    let mut sealed = Vec::new();
    encrypt_stream(b"text", &mut sealed, &key).unwrap();
    assert_eq!(read_plain_cast(&sealed, &key), Ok(b"text".to_vec()));
    assert_eq!(read_plain_cast(b"plain", b""), Ok(b"plain".to_vec()));
    assert_eq!(read_plain_cast(&sealed, b""), Err(CryptoError::InvalidKey));
    assert_eq!(read_plain_cast(&sealed[..9], &key), Err(CryptoError::UnexpectedEof));
}

#[test]
fn local_sessions_are_taken_in() {
    let key = [5u8; 32];
    let cfg = config();
    assert_eq!(ingest_path(&cfg, "ann", &file(b"a.cast")), Some(b"/c/ann/a.cast".to_vec()));
    assert_eq!(ingest_path(&cfg, "ann", &link(b"a.cast")), None);
    assert_eq!(ingest_path(&cfg, "ann", &file(b"a.txt")), None);
    match ingest_local(b"a recording", &key) {
        Ok(Ingest::Store(out)) => {
            assert!(is_encrypted(&out));
            assert_eq!(read_plain_cast(&out, &key), Ok(b"a recording".to_vec()));
            assert!(matches!(ingest_local(&out, &key), Ok(Ingest::Move)));
        }
        other => panic!("{:?}", other),
    }
    assert!(matches!(ingest_local(b"a", &[1, 2]), Err(CryptoError::InvalidKey)));
}

#[test]
fn users_without_a_name_have_a_number() {
    assert_eq!(user_or_uid(Some("ann".to_string()), 7), "ann");
    assert_eq!(user_or_uid(None, 1007), "1007");
}

#[test]
fn durations_are_readable() {
    let say = |x: f64| human_duration(x.to_bits());
    assert_eq!(say(0.0), "0s");
    assert_eq!(say(59.9), "59s");
    assert_eq!(say(60.0), "1m00s");
    assert_eq!(say(61.5), "1m01s");
    assert_eq!(say(3600.0), "1h00m00s");
    assert_eq!(say(36061.0), "10h01m01s");
    assert_eq!(say(-5.0), "0s");
    assert_eq!(say(f64::NAN), "0s");
    assert_eq!(duration(&cast(0, "x", &[1.0, 65.2])).as_deref(), Some("1m05s"));
    assert_eq!(duration(&cast(0, "x", &[])).as_deref(), Some("0s"));
    let mut broken = cast(0, "x", &[3.0]);
    broken.intact = false;
    assert_eq!(duration(&broken), None);
}

#[test]
fn a_session_has_a_row() {
    let ts = 1_700_000_000;
    let when = Local.timestamp_opt(ts, 0).single().unwrap().format("%Y-%m-%d %H:%M:%S").to_string();
    let row = print_session_row("a.cast", &Some(cast(ts, "bash", &[2.0])));
    assert_eq!(row, format!("{:<8} {:<29} {:<20} {:<10} {}", "SAVED", "a.cast", when, "2s", "bash"));
    assert_eq!(
        print_session_row("a.cast", &None),
        format!("{:<8} {:<29} {:<20} {:<10} {}", "SAVED", "a.cast", "?", "-", "(unreadable)")
    );
    assert_eq!(
        print_session_row("a", &Some(cast(i64::MAX, "bash", &[]))),
        format!("{:<8} {:<29} {:<20} {:<10} {}", "SAVED", "a", "?", "0s", "bash")
    );
    assert_eq!(
        row_at("n", &Some(cast(0, "sh", &[])), &Some("then".to_string())),
        format!("{:<8} {:<29} {:<20} {:<10} {}", "SAVED", "n", "then", "0s", "sh")
    );
}

#[test]
fn local_sessions_are_listed() {
    assert_eq!(list_local(&config(), &None), vec!["no recordings yet (dir: /l)"]);
    let list = vec![ListedSession { path: b"/l/a.cast".to_vec(), cast: None }];
    let lines = list_local(&config(), &Some(list));
    assert_eq!(
        lines[0],
        "STATUS   FILE                          STARTED              DURATION   COMMAND"
    );
    assert_eq!(lines[1], print_session_row("a.cast", &None));
    assert_eq!(lines.len(), 2);
}

#[test]
fn a_recording_survives_the_store() {
    let key = [9u8; 32];
    let mut w = CastWriter::new(b"header");
    w.write_output(b"first");
    w.write_output(b"second");
    let text = w.flush();
    let mut sealer = FrameSealer::begin(&key).unwrap();
    let mut stored = sealer.header();
    for piece in text.chunks(3) {
        stored.extend(sealer.seal_frame(piece).unwrap());
    }
    let read = read_plain_cast(&stored, &key).unwrap();
    assert_eq!(read, text);
    let mut r = CastReader::new(&read);
    assert_eq!(read_header(&mut r).unwrap(), "header");
    assert_eq!(read_event(&mut r).unwrap().as_deref(), Some("first"));
    assert_eq!(read_event(&mut r).unwrap().as_deref(), Some("second"));
    assert_eq!(read_event(&mut r).unwrap(), None);
}

#[test]
fn local_sessions_are_taken_in_once() {
    let cfg = config();
    let entries = vec![file(b"b.cast"), link(b"c.cast"), file(b"a.cast"), file(b"notes")];
    assert_eq!(
        ingest_moves(&cfg, "ann", &entries),
        vec![
            (b"/l/b.cast".to_vec(), b"/c/ann/b.cast".to_vec()),
            (b"/l/a.cast".to_vec(), b"/c/ann/a.cast".to_vec()),
        ]
    );
    let left = vec![link(b"c.cast"), file(b"notes")];
    assert_eq!(ingest_moves(&cfg, "ann", &left), vec![]);
    assert_eq!(ingest_moves(&cfg, "ann", &vec![]), vec![]);
}

#[test]
fn old_sessions_are_told_from_new_ones() {
    let mut entries = vec![file(b"b.cast"), file(b"a.cast"), file(b"c.cast"), file(b"notes")];
    entries[0].modified = 99;
    entries[1].modified = 98;
    entries[2].modified = 100;
    assert_eq!(
        old_cast_files(b"/c/u", &entries, 100),
        vec![b"/c/u/a.cast".to_vec(), b"/c/u/b.cast".to_vec()]
    );
    assert_eq!(old_cast_files(b"/c/u", &entries, i64::MIN), Vec::<Vec<u8>>::new());
}

#[test]
fn what_is_taken_in_has_the_current_format() {
    match ingest_local(b"a recording", &[5u8; 32]) {
        Ok(Ingest::Store(out)) => {
            assert_eq!(&out[..6], b"TTEC2\n");
            assert_eq!(out.len(), 10 + 4 + 11 + 16);
        }
        other => panic!("{:?}", other),
    }
}

#[test]
fn every_date_is_shown() {
    for ts in [-1, -2_208_988_800, 253_402_300_800, -8_334_601_228_800, 8_210_266_876_799] {
        let when = Local.timestamp_opt(ts, 0).single().unwrap();
        assert_eq!(
            print_session_row("a", &Some(cast(ts, "sh", &[]))),
            format!(
                "{:<8} {:<29} {:<20} {:<10} {}",
                "SAVED",
                "a",
                when.format("%Y-%m-%d %H:%M:%S").to_string(),
                "0s",
                "sh"
            )
        );
    }
    for ts in [i64::MIN, -8_334_601_228_801, 8_210_266_876_800, i64::MAX] {
        assert_eq!(
            print_session_row("a", &Some(cast(ts, "sh", &[]))),
            format!("{:<8} {:<29} {:<20} {:<10} {}", "SAVED", "a", "?", "0s", "sh")
        );
    }
}
