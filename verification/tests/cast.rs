use ttrack_pro::cast::{
    new_header, now_ts, output_event, read_event, read_header, shows_output, timestamp_of,
    CastError, CastReader, CastWriter, Event,
};

#[test]
fn what_is_written_is_read() {
    let mut w = CastWriter::new(b"{\"version\":2}");
    w.write_output(b"[0.5,\"o\",\"hi\"]");
    w.write_output(b"[1.0,\"i\",\"x\"]");
    let data = w.flush();
    assert_eq!(data, b"{\"version\":2}\n[0.5,\"o\",\"hi\"]\n[1.0,\"i\",\"x\"]\n");
    assert!(w.flush().is_empty());
    let mut r = CastReader::new(&data);
    assert_eq!(read_header(&mut r).unwrap(), "{\"version\":2}");
    assert_eq!(read_event(&mut r).unwrap().unwrap(), "[0.5,\"o\",\"hi\"]");
    assert_eq!(read_event(&mut r).unwrap().unwrap(), "[1.0,\"i\",\"x\"]");
    assert_eq!(read_event(&mut r).unwrap(), None);
    assert_eq!(read_event(&mut r).unwrap(), None);
}

#[test]
fn the_end_of_a_line_does_not_count() {
    let mut r = CastReader::new(b"head  \t\r\n\nlast");
    assert_eq!(read_header(&mut r).unwrap(), "head");
    assert_eq!(read_event(&mut r).unwrap().unwrap(), "");
    assert_eq!(read_event(&mut r).unwrap().unwrap(), "last");
    assert_eq!(read_event(&mut r).unwrap(), None);
}

#[test]
fn an_empty_recording_has_an_empty_header() {
    let mut r = CastReader::new(b"");
    assert_eq!(read_header(&mut r).unwrap(), "");
}

#[test]
fn lines_that_are_not_text_are_refused() {
    let mut r = CastReader::new(b"\xff\xfe\nok\n\xc3");
    assert_eq!(read_header(&mut r), Err(CastError::InvalidUtf8));
    assert_eq!(read_event(&mut r).unwrap().unwrap(), "ok");
    assert_eq!(read_event(&mut r), Err(CastError::InvalidUtf8));
}

#[test]
fn output_is_told_from_the_rest() {
    let ev = output_event(1.25f64.to_bits(), b"a\xffb");
    assert_eq!(f64::from_bits(ev.0), 1.25);
    assert_eq!(ev.1, "o");
    assert_eq!(ev.2, "a\u{fffd}b");
    assert!(shows_output(&ev));
    assert!(!shows_output(&Event(0, "i".to_string(), "x".to_string())));
}

#[test]
fn a_header_describes_the_terminal() {
    let h = new_header(5, "ls -l".to_string(), None, Some("vt100".to_string()));
    assert_eq!((h.version, h.width, h.height, h.timestamp), (2, 80, 24, 5));
    assert_eq!(h.command, "ls -l");
    assert_eq!(
        h.env,
        vec![
            ("SHELL".to_string(), "/bin/bash".to_string()),
            ("TERM".to_string(), "vt100".to_string())
        ]
    );
    let h = new_header(5, "".to_string(), Some("/bin/zsh".to_string()), None);
    assert_eq!(h.env[0].1, "/bin/zsh");
    assert_eq!(h.env[1].1, "xterm-256color");
}

#[test]
fn the_clock_gives_timestamps() {
    assert_eq!(timestamp_of(None), 0);
    assert_eq!(timestamp_of(Some(17)), 17);
    assert_eq!(timestamp_of(Some(u64::MAX)), -1);
    let before = std::time::SystemTime::now()
        .duration_since(std::time::UNIX_EPOCH)
        .unwrap()
        .as_secs() as i64;
    let now = now_ts();
    assert!(before <= now && now <= before + 60);
}

fn recorded(command: &str, outputs: &[(f64, &[u8])]) -> Vec<u8> {
    let h = new_header(7, command.to_string(), None, None);
    let header = (h.version, h.width, h.height, h.timestamp, h.command);
    let mut w = CastWriter::new(&serde_json::to_vec(&header).unwrap());
    for (time, data) in outputs {
        let ev = output_event(time.to_bits(), data);
        let line = (f64::from_bits(ev.0), ev.1, ev.2);
        w.write_output(&serde_json::to_vec(&line).unwrap());
    }
    w.flush()
}

#[test]
fn what_json_writes_is_read() {
    let command = "echo \"a\nb\"\r\n\t ";
    let outputs: [(f64, &[u8]); 3] = [(0.25, b"one\r\n"), (1.5, b"\xff\n"), (2.0, b"")];
    let data = recorded(command, &outputs);
    let mut r = CastReader::new(&data);
    let header: (u8, u16, u16, i64, String) =
        serde_json::from_str(&read_header(&mut r).unwrap()).unwrap();
    assert_eq!(header, (2, 80, 24, 7, command.to_string()));
    for (time, data) in outputs {
        let line = read_event(&mut r).unwrap().unwrap();
        let ev: (f64, String, String) = serde_json::from_str(&line).unwrap();
        assert_eq!(ev, (time, "o".to_string(), String::from_utf8_lossy(data).to_string()));
    }
    assert_eq!(read_event(&mut r).unwrap(), None);
    let data = recorded(command, &[]);
    let mut r = CastReader::new(&data);
    assert!(read_header(&mut r).is_ok());
    assert_eq!(read_event(&mut r).unwrap(), None);
}
