use ttrack_pro::record::{
    begin_notice, destination, end_notice, open_sink, record_request, run, RecordOptions, Sink,
};

fn options(cmd: &[&str], quiet: bool) -> RecordOptions {
    RecordOptions { out: None, quiet, cmd: cmd.iter().map(|s| s.to_string()).collect() }
}

#[test]
fn a_command_is_run_as_given() {
    let c = run(&options(&["/bin/sh", "-c", "echo hi"], false), &Some("/bin/zsh".to_string()));
    assert_eq!(c.words, vec!["/bin/sh", "-c", "echo hi"]);
    assert_eq!(c.text, "/bin/sh -c echo hi");
}

#[test]
fn without_a_command_a_shell_is_run() {
    let c = run(&options(&[], false), &Some("/bin/zsh".to_string()));
    assert_eq!(c.words, vec!["/bin/zsh"]);
    assert_eq!(c.text, "/bin/zsh");
    let c = run(&options(&[], false), &None);
    assert_eq!(c.words, vec!["/bin/bash"]);
}

#[test]
fn a_recording_goes_to_the_first_place_there_is() {
    assert!(matches!(open_sink(&Some(b"/x".to_vec()), true), Sink::File(p) if p == b"/x"));
    assert!(matches!(open_sink(&None, true), Sink::Daemon));
    assert!(matches!(open_sink(&None, false), Sink::Local));
    assert_eq!(record_request(), "REC\n");
}

#[test]
fn the_user_is_told_where() {
    assert_eq!(destination(&Sink::File(b"/a\xff".to_vec()), b"/l"), "/a\u{fffd}");
    assert_eq!(destination(&Sink::Daemon, b"/l"), "ttrackd (central)");
    assert_eq!(destination(&Sink::Local, b"/l"), "/l");
    let o = options(&[], false);
    assert_eq!(
        begin_notice(&o, "/l").as_deref(),
        Some("ttrack: recording to /l — type 'exit' or Ctrl-D to stop")
    );
    assert_eq!(end_notice(&o, "/l").as_deref(), Some("\nttrack: session saved to /l"));
    let q = options(&[], true);
    assert_eq!(begin_notice(&q, "/l"), None);
    assert_eq!(end_notice(&q, "/l"), None);
}
