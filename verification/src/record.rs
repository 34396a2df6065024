//! Recording a session: what is run, where the recording goes, and what the user is told.

use crate::format::{join, join_texts};
use crate::outside::{lossy, lossy_text};
use crate::text::{copy_bytes, lemma_views_push, or_text, text_or, views};
use vstd::prelude::*;
use vstd::string::*;

verus! {

/// How a session is to be recorded.
#[derive(Debug)]
pub struct RecordOptions {
    /// The file that the recording goes to, where one is given.
    pub out: Option<Vec<u8>>,
    /// Whether the user is told nothing.
    pub quiet: bool,
    /// The program and its arguments; none for a shell.
    pub cmd: Vec<String>,
}

/// The lines of the terminal.
pub const ROWS: u16 = 24;

/// The columns of the terminal.
pub const COLS: u16 = 80;

/// What is run: the command that is given, or else the shell of the user.
pub open spec fn command_line(cmd: Seq<String>, shell: Option<String>) -> Seq<Seq<char>> {
    if cmd.len() == 0 {
        seq![text_or(shell, "/bin/bash"@)]
    } else {
        views(cmd)
    }
}

/// What is run, as words and as one text.
#[derive(Debug)]
pub struct Command {
    pub words: Vec<String>,
    pub text: String,
}

/// What is run; `shell` is what the environment names as the shell.
pub fn run(opts: &RecordOptions, shell: &Option<String>) -> (r: Command)
    ensures
        views(r.words@) == command_line(opts.cmd@, *shell),
        r.words@.len() > 0,
        r.text@ == join(views(r.words@), " "@),
{
    let mut words: Vec<String> = Vec::new();
    if opts.cmd.len() == 0 {
        words.push(or_text(shell, "/bin/bash").to_owned());
        assert(views(words@) =~= command_line(opts.cmd@, *shell));
    } else {
        let mut i: usize = 0;
        assert(views(words@) =~= views(opts.cmd@).take(0));
        while i < opts.cmd.len()
            invariant
                i <= opts.cmd@.len(),
                views(words@) == views(opts.cmd@).take(i as int),
            decreases opts.cmd@.len() - i,
        {
            let word = opts.cmd[i].as_str().to_owned();
            proof {
                lemma_views_push(words@, word);
                assert(views(opts.cmd@).take(i + 1) =~= views(opts.cmd@).take(i as int).push(word@));
            }
            words.push(word);
            i = i + 1;
        }
        assert(views(words@) =~= views(opts.cmd@));
        assert(views(words@).len() == words@.len());
    }
    let text = join_texts(&words, " ");
    Command { words, text }
}

/// Where a recording goes.
#[derive(Debug)]
pub enum Sink {
    /// Into this file.
    File(Vec<u8>),
    /// To the daemon, which keeps it in the central store.
    Daemon,
    /// Into a new file of the local directory.
    Local,
}

/// What is sent to the daemon before a recording.
pub fn record_request() -> (r: &'static str)
    ensures
        r@ == "REC\n"@,
{
    "REC\n"
}

/// Where a recording goes: into the file that is given; else to the daemon, if it took the
/// request; else into the local directory.
pub fn open_sink(out: &Option<Vec<u8>>, daemon: bool) -> (r: Sink)
    ensures
        match *out {
            Some(path) => r matches Sink::File(p) && p@ == path@,
            None => r == (if daemon {
                Sink::Daemon
            } else {
                Sink::Local
            }),
        },
{
    match out {
        Some(path) => Sink::File(copy_bytes(path.as_slice())),
        None => if daemon {
            Sink::Daemon
        } else {
            Sink::Local
        },
    }
}

/// The name of the place that a recording goes to; `local` is the file in the local directory.
pub open spec fn sink_text(sink: Sink, local: Seq<u8>) -> Seq<char> {
    match sink {
        Sink::File(path) => lossy(path@),
        Sink::Daemon => "ttrackd (central)"@,
        Sink::Local => lossy(local),
    }
}

/// The name of the place that a recording goes to; `local` is the file in the local directory.
pub fn destination(sink: &Sink, local: &[u8]) -> (r: String)
    ensures
        r@ == sink_text(*sink, local@),
{
    match sink {
        Sink::File(path) => lossy_text(path.as_slice()),
        Sink::Daemon => "ttrackd (central)".to_owned(),
        Sink::Local => lossy_text(local),
    }
}

/// What the user is told when the recording begins, unless they are to be told nothing.
pub fn begin_notice(opts: &RecordOptions, dest: &str) -> (r: Option<String>)
    ensures
        r is Some <==> !opts.quiet,
        r is Some ==> r->0@ == "ttrack: recording to "@ + dest@
            + " — type 'exit' or Ctrl-D to stop"@,
{
    if opts.quiet {
        return None;
    }
    let mut out = "ttrack: recording to ".to_owned();
    out.append(dest);
    out.append(" — type 'exit' or Ctrl-D to stop");
    Some(out)
}

/// What the user is told when the recording has ended, unless they are to be told nothing.
pub fn end_notice(opts: &RecordOptions, dest: &str) -> (r: Option<String>)
    ensures
        r is Some <==> !opts.quiet,
        r is Some ==> r->0@ == "\nttrack: session saved to "@ + dest@,
{
    if opts.quiet {
        return None;
    }
    let mut out = "\nttrack: session saved to ".to_owned();
    out.append(dest);
    Some(out)
}

/// A command that is given is run word by word; without one, the shell that the environment names,
/// or else bash.
pub proof fn law_command_line(cmd: Seq<String>, shell: Option<String>, i: int)
    ensures
        cmd.len() > 0 ==> command_line(cmd, shell).len() == cmd.len(),
        0 <= i < cmd.len() ==> command_line(cmd, shell)[i] == cmd[i]@,
        cmd.len() == 0 && shell is Some ==> command_line(cmd, shell) == seq![shell->0@],
        cmd.len() == 0 && shell is None ==> command_line(cmd, shell) == seq!["/bin/bash"@],
{
}

/// The place that a recording goes to is named by its file, or as the daemon.
pub proof fn law_sink_text(path: Vec<u8>, local: Seq<u8>)
    ensures
        sink_text(Sink::File(path), local) == lossy(path@),
        sink_text(Sink::Daemon, local) == "ttrackd (central)"@,
        sink_text(Sink::Local, local) == lossy(local),
{
}

} // verus!
