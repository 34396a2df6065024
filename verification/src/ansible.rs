//! Ansible runs: the events that a run reports, what is shown of it, and the traces that a run
//! leaves in the sessions that it passes through.

use crate::cast::{
    after_line, byte_lines, law_byte_lines, lemma_line_len, lemma_line_len_is, line, line_len,
    LINE_FEED,
};
use crate::config::{bytes_of, Config};
use crate::format::{
    cell_views, decimal, join, join_texts, law_row, law_shortened, left, left_cell, left_column,
    lemma_row_of_two, plain, plain_cell, prefixed, rendered, right, right_cell, right_column, row,
    row_of, shorten, shortened, signed_decimal, text_of_i64, text_of_u64, CellView,
};
use crate::order::{
    bytes_le, encoded, keys, law_ordered_texts_contains, lemma_ordered_texts, ordered_texts, sort,
    sorted, Keyed,
};
use crate::outside::{
    civil_text, datable, local_text, local_time, lossy, lossy_text, unicode_alphanumeric,
};
use crate::path::{extension, has_extension, join_path, law_stem_extension, stem, stem_of, DOT};
use crate::seconds::{is_positive, lemma_whole_not_negative, positive, whole, whole_seconds};
use crate::store::DirEntry;
use crate::text::{
    byte_len, byte_views, chars_of, copy_bytes, lemma_ascii_bytes, lemma_encode_concat,
    lemma_views_push, lines, lines_of, or_text, same_text, text_or, text_starts_with, trim, trimmed,
    views,
};
use vstd::prelude::*;
use vstd::string::*;
use vstd::utf8::*;

verus! {

/// How much of what a task printed is kept, in bytes.
pub const MAX_OUTPUT: usize = 8192;

/// What one line of a run's report says. What a line leaves out is empty or zero. Times are in
/// seconds, as the bits of a 64-bit float.
#[derive(Debug)]
pub struct RawEvent {
    pub kind: String,
    pub id: String,
    pub playbook: String,
    pub user: String,
    pub started: u64,
    pub controller: String,
    pub name: String,
    pub module: String,
    pub host: String,
    pub status: String,
    pub rc: i64,
    pub t: u64,
    pub stdout: String,
    pub ok: u64,
    pub changed: u64,
    pub failed: u64,
    pub unreachable: u64,
    pub skipped: u64,
}

/// A task that was run on a host.
#[derive(Debug)]
pub struct TaskInfo {
    pub name: String,
    pub module: String,
    pub host: String,
    pub status: String,
    pub rc: i64,
    pub duration: u64,
    pub stdout_snippet: String,
}

/// How the tasks on a host went.
#[derive(Debug, Clone, Copy, PartialEq, Eq, Structural)]
pub struct HostStats {
    pub ok: u64,
    pub changed: u64,
    pub failed: u64,
    pub unreachable: u64,
    pub skipped: u64,
}

/// A host and how its tasks went.
#[derive(Debug)]
pub struct HostRow {
    pub host: String,
    pub stats: HostStats,
}

/// What a run reported.
#[derive(Debug)]
pub struct ParsedRun {
    pub run_id: String,
    pub playbook: String,
    pub user: String,
    pub controller: String,
    pub started: u64,
    pub plays: Vec<String>,
    pub tasks: Vec<TaskInfo>,
    pub host_stats: Vec<HostRow>,
}

/// A task, with its texts as characters.
pub struct TaskView {
    pub name: Seq<char>,
    pub module: Seq<char>,
    pub host: Seq<char>,
    pub status: Seq<char>,
    pub rc: i64,
    pub duration: u64,
    pub stdout_snippet: Seq<char>,
}

impl View for TaskInfo {
    type V = TaskView;

    open spec fn view(&self) -> TaskView {
        TaskView {
            name: self.name@,
            module: self.module@,
            host: self.host@,
            status: self.status@,
            rc: self.rc,
            duration: self.duration,
            stdout_snippet: self.stdout_snippet@,
        }
    }
}

/// A line of the report that could be read, and is of this kind.
pub open spec fn of_kind(ev: Option<RawEvent>, kind: Seq<char>) -> bool {
    ev matches Some(e) && e.kind@ == kind
}

/// The last line that describes the run.
pub open spec fn last_run(evs: Seq<Option<RawEvent>>) -> Option<RawEvent>
    decreases evs.len(),
{
    if evs.len() == 0 {
        None
    } else if of_kind(evs.last(), "run"@) {
        evs.last()
    } else {
        last_run(evs.drop_last())
    }
}

/// The names of the plays, in the order in which they were reported. A play may have no name.
pub open spec fn play_names(evs: Seq<Option<RawEvent>>) -> Seq<Seq<char>>
    decreases evs.len(),
{
    if evs.len() == 0 {
        Seq::empty()
    } else if of_kind(evs.last(), "play"@) && evs.last()->0.name@.len() > 0 {
        play_names(evs.drop_last()).push(evs.last()->0.name@)
    } else {
        play_names(evs.drop_last())
    }
}

/// What is kept of a task.
pub open spec fn task_of(ev: RawEvent) -> TaskView {
    TaskView {
        name: ev.name@,
        module: ev.module@,
        host: ev.host@,
        status: ev.status@,
        rc: ev.rc,
        duration: ev.t,
        stdout_snippet: shortened(ev.stdout@, MAX_OUTPUT as int, "..."@),
    }
}

/// The tasks, in the order in which they were reported.
pub open spec fn task_views(evs: Seq<Option<RawEvent>>) -> Seq<TaskView>
    decreases evs.len(),
{
    if evs.len() == 0 {
        Seq::empty()
    } else if of_kind(evs.last(), "task"@) {
        task_views(evs.drop_last()).push(task_of(evs.last()->0))
    } else {
        task_views(evs.drop_last())
    }
}

/// The numbers that a line reports of a host.
pub open spec fn stats_of(ev: RawEvent) -> HostStats {
    HostStats {
        ok: ev.ok,
        changed: ev.changed,
        failed: ev.failed,
        unreachable: ev.unreachable,
        skipped: ev.skipped,
    }
}

/// What was reported last of each host.
pub open spec fn last_stats(evs: Seq<Option<RawEvent>>) -> Map<Seq<char>, HostStats>
    decreases evs.len(),
{
    if evs.len() == 0 {
        Map::empty()
    } else if of_kind(evs.last(), "stats"@) {
        last_stats(evs.drop_last()).insert(evs.last()->0.host@, stats_of(evs.last()->0))
    } else {
        last_stats(evs.drop_last())
    }
}

/// No host has two rows.
pub open spec fn unique_hosts(rows: Seq<HostRow>) -> bool {
    forall|i: int, j: int|
        0 <= i < j < rows.len() ==> (#[trigger] rows[i]).host@ != (#[trigger] rows[j]).host@
}

/// The row of a host, if it has one.
pub open spec fn has_row(rows: Seq<HostRow>, host: Seq<char>, stats: HostStats) -> bool {
    exists|i: int|
        0 <= i < rows.len() && (#[trigger] rows[i]).host@ == host && rows[i].stats == stats
}

/// `rows` says of each host what `m` says, and of no other.
pub open spec fn rows_are(rows: Seq<HostRow>, m: Map<Seq<char>, HostStats>) -> bool {
    &&& unique_hosts(rows)
    &&& forall|i: int|
        0 <= i < rows.len() ==> m.contains_key((#[trigger] rows[i]).host@) && m[rows[i].host@]
            == rows[i].stats
    &&& forall|host: Seq<char>| #[trigger]
        m.contains_key(host) ==> has_row(rows, host, m[host])
}

/// The texts of the tasks.
pub open spec fn tasks_view(tasks: Seq<TaskInfo>) -> Seq<TaskView> {
    Seq::new(tasks.len(), |i: int| tasks[i]@)
}

impl ParsedRun {
    /// The run says what the lines of its report say.
    pub open spec fn reports(&self, evs: Seq<Option<RawEvent>>) -> bool {
        &&& match last_run(evs) {
            None => {
                &&& self.run_id@.len() == 0
                &&& self.playbook@.len() == 0
                &&& self.user@.len() == 0
                &&& self.controller@.len() == 0
                &&& self.started == 0
            },
            Some(e) => {
                &&& self.run_id@ == e.id@
                &&& self.playbook@ == e.playbook@
                &&& self.user@ == e.user@
                &&& self.controller@ == e.controller@
                &&& self.started == e.started
            },
        }
        &&& views(self.plays@) == play_names(evs)
        &&& tasks_view(self.tasks@) == task_views(evs)
        &&& rows_are(self.host_stats@, last_stats(evs))
    }
}

/// The lines that hold something.
pub open spec fn filled(lines: Seq<Seq<u8>>) -> Seq<Seq<u8>>
    decreases lines.len(),
{
    if lines.len() == 0 {
        Seq::empty()
    } else if lines[0].len() > 0 {
        seq![lines[0]] + filled(lines.drop_first())
    } else {
        filled(lines.drop_first())
    }
}

/// Enters what was reported of a host, in place of what was reported before.
fn enter_stats(rows: &mut Vec<HostRow>, host: &String, stats: HostStats, Ghost(m): Ghost<
    Map<Seq<char>, HostStats>,
>)
    requires
        rows_are(old(rows)@, m),
    ensures
        rows_are(final(rows)@, m.insert(host@, stats)),
{
    let mut i: usize = 0;
    while i < rows.len()
        invariant
            i <= rows@.len(),
            rows@ == old(rows)@,
            rows_are(rows@, m),
            forall|j: int| 0 <= j < i ==> (#[trigger] rows@[j]).host@ != host@,
        decreases rows@.len() - i,
    {
        if same_text(rows[i].host.as_str(), host.as_str()) {
            let row = HostRow { host: host.clone(), stats };
            rows.set(i, row);
            proof {
                let n = m.insert(host@, stats);
                let before = old(rows)@;
                assert(rows@ =~= before.update(i as int, row));
                assert(unique_hosts(rows@)) by {
                    assert forall|a: int, b: int| 0 <= a < b < rows@.len() implies (
                    #[trigger] rows@[a]).host@ != (#[trigger] rows@[b]).host@ by {
                        assert(before[a].host@ != before[b].host@);
                    }
                }
                assert forall|h: Seq<char>| #[trigger] n.contains_key(h) implies has_row(
                    rows@,
                    h,
                    n[h],
                ) by {
                    if h == host@ {
                        assert(rows@[i as int].host@ == h);
                    } else {
                        assert(m.contains_key(h));
                        assert(has_row(before, h, m[h]));
                        let k = choose|k: int|
                            0 <= k < before.len() && (#[trigger] before[k]).host@ == h
                                && before[k].stats == m[h];
                        assert(rows@[k] == before[k]);
                    }
                }
                assert forall|k: int| 0 <= k < rows@.len() implies n.contains_key(
                    (#[trigger] rows@[k]).host@,
                ) && n[rows@[k].host@] == rows@[k].stats by {
                    if k != i {
                        assert(rows@[k] == before[k]);
                        if k < i {
                            assert(before[k].host@ != before[i as int].host@);
                        } else {
                            assert(before[i as int].host@ != before[k].host@);
                        }
                    }
                }
            }
            return ;
        }
        i = i + 1;
    }
    let row = HostRow { host: host.clone(), stats };
    rows.push(row);
    proof {
        let n = m.insert(host@, stats);
        let before = old(rows)@;
        assert(!m.contains_key(host@)) by {
            if m.contains_key(host@) {
                assert(has_row(before, host@, m[host@]));
            }
        }
        assert forall|h: Seq<char>| #[trigger] n.contains_key(h) implies has_row(rows@, h, n[h]) by {
            if h == host@ {
                assert(rows@[before.len() as int].host@ == h);
            } else {
                assert(m.contains_key(h));
                assert(has_row(before, h, m[h]));
                let k = choose|k: int|
                    0 <= k < before.len() && (#[trigger] before[k]).host@ == h && before[k].stats
                        == m[h];
                assert(rows@[k] == before[k]);
            }
        }
        assert forall|k: int| 0 <= k < rows@.len() implies n.contains_key(
            (#[trigger] rows@[k]).host@,
        ) && n[rows@[k].host@] == rows@[k].stats by {
            if k < before.len() {
                assert(rows@[k] == before[k]);
            }
        }
        assert forall|a: int, b: int| 0 <= a < b < rows@.len() implies (#[trigger] rows@[a]).host@
            != (#[trigger] rows@[b]).host@ by {
            if b < before.len() {
                assert(before[a].host@ != before[b].host@);
            } else {
                assert(before[a].host@ != host@);
            }
        }
    }
}

/// Puts together what the lines of a report say. A line that could not be read says nothing.
pub fn parse_run(events: &Vec<Option<RawEvent>>) -> (run: ParsedRun)
    ensures
        run.reports(events@),
{
    let mut run = ParsedRun {
        run_id: String::new(),
        playbook: String::new(),
        user: String::new(),
        controller: String::new(),
        started: 0,
        plays: Vec::new(),
        tasks: Vec::new(),
        host_stats: Vec::new(),
    };
    let mut i: usize = 0;
    proof {
        let none = events@.take(0);
        assert(views(run.plays@) =~= play_names(none));
        assert(tasks_view(run.tasks@) =~= task_views(none));
        assert(rows_are(run.host_stats@, last_stats(none)));
    }
    while i < events.len()
        invariant
            i <= events@.len(),
            run.reports(events@.take(i as int)),
        decreases events@.len() - i,
    {
        let ghost before = events@.take(i as int);
        let ghost after = events@.take(i + 1);
        let ghost run0 = run;
        proof {
            assert(after.drop_last() =~= before);
            assert(after.last() == events@[i as int]);
            reveal_strlit("run");
            reveal_strlit("play");
            reveal_strlit("task");
            reveal_strlit("stats");
            assert("run"@.len() != "play"@.len());
            assert("run"@.len() != "task"@.len());
            assert("run"@.len() != "stats"@.len());
            assert("play"@[0] != "task"@[0]);
            assert("play"@.len() != "stats"@.len());
            assert("task"@.len() != "stats"@.len());
        }
        if let Some(ev) = &events[i] {
            if same_text(ev.kind.as_str(), "run") {
                run.run_id = ev.id.clone();
                run.playbook = ev.playbook.clone();
                run.user = ev.user.clone();
                run.controller = ev.controller.clone();
                run.started = ev.started;
            } else if same_text(ev.kind.as_str(), "play") {
                if !ev.name.as_str().is_empty() {
                    run.plays.push(ev.name.clone());
                    assert(views(run.plays@) =~= play_names(after));
                }
            } else if same_text(ev.kind.as_str(), "task") {
                let snippet = shorten(ev.stdout.as_str(), MAX_OUTPUT, "...");
                run.tasks.push(
                    TaskInfo {
                        name: ev.name.clone(),
                        module: ev.module.clone(),
                        host: ev.host.clone(),
                        status: ev.status.clone(),
                        rc: ev.rc,
                        duration: ev.t,
                        stdout_snippet: snippet,
                    },
                );
                assert(tasks_view(run.tasks@) =~= task_views(after));
            } else if same_text(ev.kind.as_str(), "stats") {
                let stats = HostStats {
                    ok: ev.ok,
                    changed: ev.changed,
                    failed: ev.failed,
                    unreachable: ev.unreachable,
                    skipped: ev.skipped,
                };
                enter_stats(&mut run.host_stats, &ev.host, stats, Ghost(last_stats(before)));
            }
        }
        assert(run.reports(after));
        i = i + 1;
    }
    assert(events@.take(i as int) =~= events@);
    run
}

/// The lines of a report that hold something.
pub fn event_lines(data: &[u8]) -> (r: Vec<Vec<u8>>)
    ensures
        byte_views(r@) == filled(byte_lines(data@)),
{
    let mut out: Vec<Vec<u8>> = Vec::new();
    let mut pos: usize = 0;
    proof {
        assert(data@.skip(0) =~= data@);
        assert(byte_views(out@) + filled(byte_lines(data@)) =~= filled(byte_lines(data@)));
    }
    while pos < data.len()
        invariant
            pos <= data@.len(),
            byte_views(out@) + filled(byte_lines(data@.skip(pos as int))) == filled(
                byte_lines(data@),
            ),
        decreases data@.len() - pos,
    {
        let ghost rest = data@.skip(pos as int);
        let ghost before = out@;
        let mut end: usize = pos;
        while end < data.len() && data[end] != LINE_FEED
            invariant
                pos <= end <= data@.len(),
                forall|i: int| pos <= i < end ==> data@[i] != LINE_FEED,
            decreases data@.len() - end,
        {
            end = end + 1;
        }
        proof {
            assert forall|i: int| 0 <= i < end - pos implies rest[i] != LINE_FEED by {
                assert(rest[i] == data@[pos + i]);
            }
            lemma_line_len_is(rest, end - pos);
            assert(line(rest) =~= data@.subrange(pos as int, end as int));
        }
        let next: usize = if end < data.len() {
            end + 1
        } else {
            end
        };
        assert(after_line(rest) =~= data@.skip(next as int));
        let ghost tail = byte_lines(data@.skip(next as int));
        assert(byte_lines(rest).drop_first() =~= tail);
        if end > pos {
            out.push(copy_bytes(vstd::slice::slice_subrange(data, pos, end)));
            proof {
                assert(byte_views(out@) =~= byte_views(before).push(line(rest)));
                assert(byte_views(out@) + filled(tail) =~= byte_views(before) + filled(
                    byte_lines(rest),
                ));
            }
        }
        pos = next;
    }
    assert(filled(byte_lines(data@.skip(pos as int))) =~= Seq::<Seq<u8>>::empty());
    assert(byte_views(out@) =~= filled(byte_lines(data@)));
    out
}

/// A character that may stand in the name of a run.
pub open spec fn run_id_char(c: char) -> bool {
    unicode_alphanumeric(c) || c == '-' || c == '_'
}

/// The names that a run may have: 5 to 64 bytes of letters, digits, `-` and `_`.
pub open spec fn run_id_ok(id: Seq<char>) -> bool {
    &&& 5 <= encode_utf8(id).len() <= 64
    &&& forall|i: int| 0 <= i < id.len() ==> run_id_char(#[trigger] id[i])
}

/// A name in which nothing of ASCII stands but letters, digits, `-` and `_`.
pub open spec fn ascii_safe(name: Seq<char>) -> bool {
    forall|i: int|
        0 <= i < name.len() && (#[trigger] name[i] as u32) < 0x80 ==> {
            ||| '0' <= name[i] <= '9'
            ||| 'A' <= name[i] <= 'Z'
            ||| 'a' <= name[i] <= 'z'
            ||| name[i] == '-'
            ||| name[i] == '_'
        }
}

/// Whether a run may have this name. Such a name has no separator and no dot in it.
pub fn valid_run_id(id: &str) -> (r: bool)
    ensures
        r == run_id_ok(id@),
        r ==> ascii_safe(id@),
{
    let len = byte_len(id);
    if len < 5 || len > 64 {
        return false;
    }
    let cs = chars_of(id);
    let mut i: usize = 0;
    while i < cs.len()
        invariant
            cs@ == id@,
            i <= cs@.len(),
            forall|j: int| 0 <= j < i ==> run_id_char(#[trigger] id@[j]),
            ascii_safe(id@.take(i as int)),
        decreases cs@.len() - i,
    {
        let c = cs[i];
        if !(c.is_alphanumeric() || c == '-' || c == '_') {
            assert(!run_id_char(id@[i as int]));
            return false;
        }
        proof {
            let t = id@.take(i + 1);
            assert forall|j: int| 0 <= j < t.len() && (#[trigger] t[j] as u32) < 0x80 implies {
                ||| '0' <= t[j] <= '9'
                ||| 'A' <= t[j] <= 'Z'
                ||| 'a' <= t[j] <= 'z'
                ||| t[j] == '-'
                ||| t[j] == '_'
            } by {
                if j < i {
                    assert(t[j] == id@.take(i as int)[j]);
                }
            }
        }
        i = i + 1;
    }
    assert(id@.take(i as int) =~= id@);
    true
}

/// `s`, cut to `max` bytes at most, with a mark where something was cut.
pub fn truncate(s: &str, max: usize) -> (r: String)
    ensures
        r@ == shortened(s@, max as int, "…"@),
{
    shorten(s, max, "…")
}

/// Where runs are kept when the daemon cannot be reached.
pub fn ansible_local_dir(cfg: &Config) -> (r: Vec<u8>)
    ensures
        r@ == crate::path::join(cfg@.local_dir, bytes_of("ansible")),
{
    join_path(cfg.local_dir.as_slice(), "ansible".as_bytes())
}

/// The name of the file that a run is kept in.
pub open spec fn run_file(id: Seq<char>) -> Seq<u8> {
    encode_utf8(id + ".ajsonl"@)
}

/// Where a run is kept when the daemon cannot be reached.
pub fn local_run_path(cfg: &Config, id: &str) -> (r: Vec<u8>)
    ensures
        r@ == crate::path::join(
            crate::path::join(cfg@.local_dir, bytes_of("ansible")),
            run_file(id@),
        ),
{
    let name = prefixed(id, ".ajsonl");
    join_path(ansible_local_dir(cfg).as_slice(), name.as_str().as_bytes())
}

/// A run in the list: its name, and its playbook where the run could be read.
#[derive(Debug)]
pub struct ListedRun {
    pub id: String,
    pub playbook: Option<String>,
}

/// The row of a run in the list.
pub open spec fn run_row(run: ListedRun) -> Seq<char> {
    row(seq![left(run.id@, 40), plain(text_or(run.playbook, "(unreadable)"@))])
}

/// What is shown of the runs of a user.
pub open spec fn run_list(user: Seq<char>, runs: Seq<ListedRun>) -> Seq<Seq<char>> {
    if runs.len() == 0 {
        seq!["no ansible runs for "@ + user]
    } else {
        seq![row(seq![left("RUN ID"@, 40), plain("PLAYBOOK"@)])] + Seq::new(
            runs.len(),
            |i: int| run_row(runs[i]),
        )
    }
}

/// What is shown of the runs of a user.
pub fn cmd_list(user: &str, runs: &Vec<ListedRun>) -> (r: Vec<String>)
    ensures
        views(r@) == run_list(user@, runs@),
{
    let mut out: Vec<String> = Vec::new();
    if runs.len() == 0 {
        out.push(prefixed("no ansible runs for ", user));
        assert(views(out@) =~= run_list(user@, runs@));
        return out;
    }
    let cells = vec![left_cell("RUN ID", 40), plain_cell("PLAYBOOK")];
    out.push(row_of(&cells));
    let ghost head = row(seq![left("RUN ID"@, 40), plain("PLAYBOOK"@)]);
    assert(cell_views(cells@) =~= seq![left("RUN ID"@, 40), plain("PLAYBOOK"@)]);
    let mut i: usize = 0;
    assert(views(out@) =~= seq![head] + Seq::new(0, |k: int| run_row(runs@[k])));
    while i < runs.len()
        invariant
            i <= runs@.len(),
            views(out@) == seq![head] + Seq::new(i as nat, |k: int| run_row(runs@[k])),
        decreases runs@.len() - i,
    {
        let ghost before = out@;
        let run = &runs[i];
        let playbook = or_text(&run.playbook, "(unreadable)");
        let cells = vec![left_cell(run.id.as_str(), 40), plain_cell(playbook)];
        out.push(row_of(&cells));
        proof {
            assert(cell_views(cells@) =~= seq![left(run.id@, 40), plain(playbook@)]);
            assert(out@.last()@ == run_row(runs@[i as int]));
            assert(views(out@) =~= views(before).push(run_row(runs@[i as int])));
            assert(views(out@) =~= seq![head] + Seq::new(
                (i + 1) as nat,
                |k: int| run_row(runs@[k]),
            ));
        }
        i = i + 1;
    }
    out
}

/// The head of the table of tasks.
pub open spec fn task_head() -> Seq<char> {
    row(
        seq![
            left("NAME"@, 30),
            left("HOST"@, 20),
            left("MODULE"@, 15),
            left("STATUS"@, 10),
            left("RC"@, 8),
            plain("DURATION"@),
        ],
    )
}

/// The row of a task; `duration` is how long it took, in seconds.
pub open spec fn task_row(t: TaskView, duration: Seq<char>) -> Seq<char> {
    row(
        seq![
            left(shortened(t.name, 29, "…"@), 30),
            left(shortened(t.host, 19, "…"@), 20),
            left(shortened(t.module, 14, "…"@), 15),
            left(t.status, 10),
            left(signed_decimal(t.rc as int), 8),
            plain(duration + "s"@),
        ],
    )
}

/// The first lines of what a task printed, three at most, set in.
pub open spec fn snippet_lines(t: TaskView) -> Seq<Seq<char>> {
    let l = lines(t.stdout_snippet);
    Seq::new(
        if l.len() < 3 {
            l.len()
        } else {
            3
        },
        |i: int| "  "@ + l[i],
    )
}

/// The rows of the tasks, each with the first lines of what it printed.
pub open spec fn task_block(tasks: Seq<TaskView>, durations: Seq<Seq<char>>) -> Seq<Seq<char>>
    decreases tasks.len(),
{
    if tasks.len() == 0 {
        Seq::empty()
    } else {
        task_block(tasks.drop_last(), durations).push(
            task_row(tasks.last(), durations[tasks.len() - 1]),
        ) + snippet_lines(tasks.last())
    }
}

/// The head of the table of hosts.
pub open spec fn stats_head() -> Seq<char> {
    row(
        seq![
            left("HOST"@, 20),
            right("OK"@, 6),
            right("CHANGED"@, 8),
            right("FAILED"@, 7),
            right("UNREACHABLE"@, 12),
            right("SKIPPED"@, 8),
        ],
    )
}

/// The row of a host.
pub open spec fn stats_row(r: HostRow) -> Seq<char> {
    row(
        seq![
            left(r.host@, 20),
            right(decimal(r.stats.ok as nat), 6),
            right(decimal(r.stats.changed as nat), 8),
            right(decimal(r.stats.failed as nat), 7),
            right(decimal(r.stats.unreachable as nat), 12),
            right(decimal(r.stats.skipped as nat), 8),
        ],
    )
}

/// The rows of the hosts.
pub open spec fn stats_block(rows: Seq<HostRow>) -> Seq<Seq<char>> {
    Seq::new(rows.len(), |i: int| stats_row(rows[i]))
}

/// `block` where it is wanted, else nothing.
pub open spec fn block_if(wanted: bool, block: Seq<Seq<char>>) -> Seq<Seq<char>> {
    if wanted {
        block
    } else {
        Seq::empty()
    }
}

/// What is shown of a run: `started` is when it began, `durations` how long the tasks took, in
/// seconds, and `rows` are the hosts, in order.
pub open spec fn shown(
    run: ParsedRun,
    started: Option<String>,
    durations: Seq<Seq<char>>,
    rows: Seq<HostRow>,
) -> Seq<Seq<char>> {
    seq![
        "Run:        "@ + run.run_id@,
        "Playbook:   "@ + run.playbook@,
        "User:       "@ + run.user@,
        "Controller: "@ + run.controller@,
    ] + block_if(started is Some, seq!["Started:    "@ + text_or(started, ""@)]) + block_if(
        run.plays@.len() > 0,
        seq!["Plays:      "@ + join(views(run.plays@), ", "@)],
    ) + block_if(
        run.tasks@.len() > 0,
        seq![""@, "TASKS:"@, task_head()] + task_block(tasks_view(run.tasks@), durations),
    ) + block_if(rows.len() > 0, seq![""@, "STATS:"@, stats_head()] + stats_block(rows))
}

impl Keyed for HostRow {
    open spec fn key(&self) -> Seq<u8> {
        encode_utf8(self.host@)
    }

    fn key_bytes(&self) -> (r: &[u8]) {
        self.host.as_str().as_bytes()
    }
}

/// Appends a line.
fn push_line(out: &mut Vec<String>, s: String)
    ensures
        views(final(out)@) == views(old(out)@).push(s@),
{
    let ghost before = out@;
    out.push(s);
    proof {
        crate::text::lemma_views_push(before, s);
    }
}

/// The row of a task.
fn task_row_of(t: &TaskInfo, duration: &str) -> (r: String)
    ensures
        r@ == task_row(t@, duration@),
{
    let name = truncate(t.name.as_str(), 29);
    let host = truncate(t.host.as_str(), 19);
    let module = truncate(t.module.as_str(), 14);
    let rc = text_of_i64(t.rc);
    let seconds = prefixed(duration, "s");
    let cells = vec![
        left_cell(name.as_str(), 30),
        left_cell(host.as_str(), 20),
        left_cell(module.as_str(), 15),
        left_cell(t.status.as_str(), 10),
        left_cell(rc.as_str(), 8),
        plain_cell(seconds.as_str()),
    ];
    assert(cell_views(cells@) =~= seq![
        left(name@, 30),
        left(host@, 20),
        left(module@, 15),
        left(t.status@, 10),
        left(rc@, 8),
        plain(seconds@),
    ]);
    row_of(&cells)
}

/// Appends the rows of the tasks.
fn push_tasks(out: &mut Vec<String>, tasks: &Vec<TaskInfo>, durations: &Vec<String>)
    requires
        durations@.len() == tasks@.len(),
    ensures
        views(final(out)@) == views(old(out)@) + task_block(
            tasks_view(tasks@),
            views(durations@),
        ),
{
    let ghost tv = tasks_view(tasks@);
    let ghost dv = views(durations@);
    let mut i: usize = 0;
    assert(views(out@) + task_block(tv.take(0), dv) =~= views(out@));
    while i < tasks.len()
        invariant
            i <= tasks@.len(),
            durations@.len() == tasks@.len(),
            tv == tasks_view(tasks@),
            dv == views(durations@),
            views(out@) == views(old(out)@) + task_block(tv.take(i as int), dv),
        decreases tasks@.len() - i,
    {
        let ghost before = views(out@);
        let ghost longer = tv.take(i + 1);
        let t = &tasks[i];
        push_line(out, task_row_of(t, durations[i].as_str()));
        let snippet = lines_of(t.stdout_snippet.as_str());
        let ghost wanted = snippet_lines(t@);
        let ghost head = views(out@);
        let mut j: usize = 0;
        assert(head =~= head + wanted.take(0));
        while j < snippet.len() && j < 3
            invariant
                j <= snippet@.len(),
                j <= 3,
                views(snippet@) == lines(t.stdout_snippet@),
                wanted == snippet_lines(t@),
                views(out@) == head + wanted.take(j as int),
            decreases 3 - j,
        {
            let ghost now = views(out@);
            push_line(out, prefixed("  ", snippet[j].as_str()));
            proof {
                assert(views(snippet@)[j as int] == snippet@[j as int]@);
                assert(wanted.take(j + 1) =~= wanted.take(j as int).push(wanted[j as int]));
                assert(views(out@) =~= head + wanted.take(j + 1));
            }
            j = j + 1;
        }
        proof {
            assert(views(snippet@).len() == snippet@.len());
            assert(wanted.take(j as int) =~= wanted);
            assert(longer.drop_last() =~= tv.take(i as int));
            assert(longer.last() == t@);
            assert(dv[i as int] == durations@[i as int]@);
            assert(views(out@) =~= views(old(out)@) + task_block(longer, dv));
        }
        i = i + 1;
    }
    assert(tv.take(i as int) =~= tv);
}

/// The row of a host.
fn stats_row_of(r: &HostRow) -> (s: String)
    ensures
        s@ == stats_row(*r),
{
    let ok = text_of_u64(r.stats.ok);
    let changed = text_of_u64(r.stats.changed);
    let failed = text_of_u64(r.stats.failed);
    let unreachable = text_of_u64(r.stats.unreachable);
    let skipped = text_of_u64(r.stats.skipped);
    let cells = vec![
        left_cell(r.host.as_str(), 20),
        right_cell(ok.as_str(), 6),
        right_cell(changed.as_str(), 8),
        right_cell(failed.as_str(), 7),
        right_cell(unreachable.as_str(), 12),
        right_cell(skipped.as_str(), 8),
    ];
    assert(cell_views(cells@) =~= seq![
        left(r.host@, 20),
        right(ok@, 6),
        right(changed@, 8),
        right(failed@, 7),
        right(unreachable@, 12),
        right(skipped@, 8),
    ]);
    row_of(&cells)
}

/// Copies the rows of the hosts.
fn copy_rows(rows: &Vec<HostRow>) -> (r: Vec<HostRow>)
    ensures
        r@ == rows@,
{
    let mut out: Vec<HostRow> = Vec::new();
    let mut i: usize = 0;
    while i < rows.len()
        invariant
            i <= rows@.len(),
            out@ == rows@.take(i as int),
        decreases rows@.len() - i,
    {
        out.push(HostRow { host: rows[i].host.clone(), stats: rows[i].stats });
        assert(out@ =~= rows@.take(i + 1));
        i = i + 1;
    }
    assert(rows@.take(i as int) =~= rows@);
    out
}

/// What is shown of a run. `started` is when it began, where that is known, and `durations` how
/// long the tasks took, in seconds. The hosts are shown in the order of their names.
pub fn run_report(run: &ParsedRun, started: &Option<String>, durations: &Vec<String>) -> (r: Vec<
    String,
>)
    requires
        durations@.len() == run.tasks@.len(),
    ensures
        exists|rows: Seq<HostRow>|
            sorted(keys(rows)) && rows.to_multiset() == run.host_stats@.to_multiset() && views(r@)
                == #[trigger] shown(*run, *started, views(durations@), rows),
{
    let rows = sort(copy_rows(&run.host_stats));
    let mut out: Vec<String> = Vec::new();
    push_line(&mut out, prefixed("Run:        ", run.run_id.as_str()));
    push_line(&mut out, prefixed("Playbook:   ", run.playbook.as_str()));
    push_line(&mut out, prefixed("User:       ", run.user.as_str()));
    push_line(&mut out, prefixed("Controller: ", run.controller.as_str()));
    let ghost part0 = seq![
        "Run:        "@ + run.run_id@,
        "Playbook:   "@ + run.playbook@,
        "User:       "@ + run.user@,
        "Controller: "@ + run.controller@,
    ];
    assert(views(out@) =~= part0);
    let ghost part1 = part0 + block_if(
        started is Some,
        seq!["Started:    "@ + text_or(*started, ""@)],
    );
    if let Some(text) = started {
        push_line(&mut out, prefixed("Started:    ", text.as_str()));
    }
    assert(views(out@) =~= part1);
    let ghost part2 = part1 + block_if(
        run.plays@.len() > 0,
        seq!["Plays:      "@ + join(views(run.plays@), ", "@)],
    );
    if run.plays.len() > 0 {
        let plays = join_texts(&run.plays, ", ");
        push_line(&mut out, prefixed("Plays:      ", plays.as_str()));
    }
    assert(views(out@) =~= part2);
    let ghost part3 = part2 + block_if(
        run.tasks@.len() > 0,
        seq![""@, "TASKS:"@, task_head()] + task_block(tasks_view(run.tasks@), views(durations@)),
    );
    if run.tasks.len() > 0 {
        push_line(&mut out, "".to_owned());
        push_line(&mut out, "TASKS:".to_owned());
        let cells = vec![
            left_cell("NAME", 30),
            left_cell("HOST", 20),
            left_cell("MODULE", 15),
            left_cell("STATUS", 10),
            left_cell("RC", 8),
            plain_cell("DURATION"),
        ];
        assert(cell_views(cells@) =~= seq![
            left("NAME"@, 30),
            left("HOST"@, 20),
            left("MODULE"@, 15),
            left("STATUS"@, 10),
            left("RC"@, 8),
            plain("DURATION"@),
        ]);
        push_line(&mut out, row_of(&cells));
        push_tasks(&mut out, &run.tasks, durations);
    }
    assert(views(out@) =~= part3);
    if rows.len() > 0 {
        push_line(&mut out, "".to_owned());
        push_line(&mut out, "STATS:".to_owned());
        let cells = vec![
            left_cell("HOST", 20),
            right_cell("OK", 6),
            right_cell("CHANGED", 8),
            right_cell("FAILED", 7),
            right_cell("UNREACHABLE", 12),
            right_cell("SKIPPED", 8),
        ];
        assert(cell_views(cells@) =~= seq![
            left("HOST"@, 20),
            right("OK"@, 6),
            right("CHANGED"@, 8),
            right("FAILED"@, 7),
            right("UNREACHABLE"@, 12),
            right("SKIPPED"@, 8),
        ]);
        push_line(&mut out, row_of(&cells));
        let ghost head = views(out@);
        let mut i: usize = 0;
        assert(head =~= head + stats_block(rows@).take(0));
        while i < rows.len()
            invariant
                i <= rows@.len(),
                views(out@) == head + stats_block(rows@).take(i as int),
            decreases rows@.len() - i,
        {
            push_line(&mut out, stats_row_of(&rows[i]));
            assert(stats_block(rows@).take(i + 1) =~= stats_block(rows@).take(i as int).push(
                stats_row(rows@[i as int]),
            ));
            assert(views(out@) =~= head + stats_block(rows@).take(i + 1));
            i = i + 1;
        }
        assert(stats_block(rows@).take(i as int) =~= stats_block(rows@));
    }
    assert(views(out@) =~= shown(*run, *started, views(durations@), rows@));
    out
}

/// `started` is when a run began, by what it tells: no time unless that is positive and has a date.
pub open spec fn run_starts(bits: u64, started: Option<String>) -> bool {
    &&& started is Some <==> positive(bits) && datable(whole(bits, i64::MAX as int))
    &&& started is Some ==> local_text(whole(bits, i64::MAX as int), started->0@)
}

/// `lines` is what is shown of a run, whatever the time zone is, with the hosts in the order of
/// their names.
pub open spec fn shows_run(
    lines: Seq<Seq<char>>,
    run: ParsedRun,
    durations: Seq<Seq<char>>,
) -> bool {
    exists|started: Option<String>, rows: Seq<HostRow>|
        run_starts(run.started, started) && sorted(keys(rows)) && rows.to_multiset()
            == run.host_stats@.to_multiset() && lines == #[trigger] shown(
            run,
            started,
            durations,
            rows,
        )
}

/// What is shown of a run; `durations` is how long the tasks took, in seconds.
pub fn cmd_show(run: &ParsedRun, durations: &Vec<String>) -> (r: Vec<String>)
    requires
        durations@.len() == run.tasks@.len(),
    ensures
        shows_run(views(r@), *run, views(durations@)),
{
    let started = if is_positive(run.started) {
        let secs = whole_seconds(run.started, i64::MAX as u64);
        local_time(secs as i64, "%Y-%m-%d %H:%M:%S")
    } else {
        None
    };
    assert(run_starts(run.started, started));
    run_report(run, &started, durations)
}

/// Why a report is not taken in, or a run not looked for.
#[derive(Debug)]
pub enum RunError {
    /// No line describes the run.
    NoRunEvent,
    /// The run has a name that it may not have.
    InvalidRunId(String),
}

/// Where the runs of a user are kept.
pub open spec fn central_runs(central_dir: Seq<u8>, user: Seq<char>) -> Seq<u8> {
    crate::path::join(crate::path::join(central_dir, encode_utf8(user)), bytes_of("ansible"))
}

/// Where the runs of a user are kept.
pub fn ansible_central_dir(cfg: &Config, user: &str) -> (r: Vec<u8>)
    ensures
        r@ == central_runs(cfg@.central_dir, user@),
{
    let dir = join_path(cfg.central_dir.as_slice(), user.as_bytes());
    join_path(dir.as_slice(), "ansible".as_bytes())
}

/// A run that is kept, by its file name.
pub open spec fn run_entry(e: DirEntry) -> bool {
    !e.is_symlink && extension(e.name@) == Some(encode_utf8("ajsonl"@))
}

/// The names of the runs in a directory, as they come.
pub open spec fn runs_in(entries: Seq<DirEntry>) -> Seq<Seq<char>>
    decreases entries.len(),
{
    if entries.len() == 0 {
        Seq::empty()
    } else {
        let before = runs_in(entries.drop_last());
        if run_entry(entries.last()) {
            before.push(lossy(stem(entries.last().name@)))
        } else {
            before
        }
    }
}

/// The names of the runs that are kept in a directory, in order.
pub fn ansible_runs(entries: &Vec<DirEntry>) -> (r: Vec<String>)
    ensures
        views(r@) == ordered_texts(runs_in(entries@)),
{
    let mut out: Vec<String> = Vec::new();
    let mut i: usize = 0;
    assert(views(out@) =~= runs_in(entries@.take(0)));
    while i < entries.len()
        invariant
            i <= entries@.len(),
            views(out@) == runs_in(entries@.take(i as int)),
        decreases entries@.len() - i,
    {
        let ghost before = out@;
        let e = &entries[i];
        proof {
            assert(entries@.take(i + 1).drop_last() =~= entries@.take(i as int));
            assert(entries@.take(i + 1).last() == *e);
        }
        if !e.is_symlink && has_extension(e.name.as_slice(), "ajsonl".as_bytes()) {
            let name = lossy_text(stem_of(e.name.as_slice()).as_slice());
            proof {
                lemma_views_push(before, name);
            }
            out.push(name);
        }
        i = i + 1;
    }
    assert(entries@.take(i as int) =~= entries@);
    let ghost found = out@;
    let r = sort(out);
    proof {
        assert(keys(found) =~= encoded(runs_in(entries@)));
        lemma_ordered_texts(r@, runs_in(entries@));
    }
    r
}

/// Where a run of a user is kept.
pub fn run_path(cfg: &Config, user: &str, id: &str) -> (r: Vec<u8>)
    ensures
        r@ == crate::path::join(central_runs(cfg@.central_dir, user@), run_file(id@)),
{
    let name = prefixed(id, ".ajsonl");
    join_path(ansible_central_dir(cfg, user).as_slice(), name.as_str().as_bytes())
}

/// Where the run is kept that a user asks for. A name that a run may not have is refused.
pub fn requested_run_path(cfg: &Config, user: &str, id: &str) -> (r: Result<Vec<u8>, RunError>)
    ensures
        r is Ok <==> run_id_ok(id@),
        r matches Ok(p) ==> p@ == crate::path::join(
            central_runs(cfg@.central_dir, user@),
            run_file(id@),
        ) && ascii_safe(id@),
        r matches Err(e) ==> e matches RunError::InvalidRunId(t) && t@ == id@,
{
    if !valid_run_id(id) {
        return Err(RunError::InvalidRunId(id.to_owned()));
    }
    Ok(run_path(cfg, user, id))
}

/// The first line that describes the run.
pub open spec fn first_run(evs: Seq<Option<RawEvent>>) -> Option<RawEvent>
    decreases evs.len(),
{
    if evs.len() == 0 {
        None
    } else if of_kind(evs[0], "run"@) {
        evs[0]
    } else {
        first_run(evs.drop_first())
    }
}

/// The name under which a report is taken in: the one that its first description of the run
/// gives, where a run may have it.
pub fn cmd_ingest(events: &Vec<Option<RawEvent>>) -> (r: Result<String, RunError>)
    ensures
        match first_run(events@) {
            None => r matches Err(RunError::NoRunEvent),
            Some(e) => if run_id_ok(e.id@) {
                r is Ok && r->Ok_0@ == e.id@ && ascii_safe(e.id@)
            } else {
                r matches Err(RunError::InvalidRunId(t)) && t@ == e.id@
            },
        },
{
    let mut i: usize = 0;
    assert(events@.skip(0) =~= events@);
    while i < events.len()
        invariant
            i <= events@.len(),
            first_run(events@) == first_run(events@.skip(i as int)),
        decreases events@.len() - i,
    {
        let ghost rest = events@.skip(i as int);
        assert(rest[0] == events@[i as int]);
        if let Some(ev) = &events[i] {
            if same_text(ev.kind.as_str(), "run") {
                if !valid_run_id(ev.id.as_str()) {
                    return Err(RunError::InvalidRunId(ev.id.clone()));
                }
                return Ok(ev.id.clone());
            }
        }
        assert(rest.drop_first() =~= events@.skip(i + 1));
        i = i + 1;
    }
    Err(RunError::NoRunEvent)
}

/// What is sent to the daemon before a report.
pub fn ingest_request(id: &str) -> (r: String)
    ensures
        r@ == "ANSIBLE "@ + id@ + "\n"@,
{
    let head = prefixed("ANSIBLE ", id);
    prefixed(head.as_str(), "\n")
}

/// What the daemon answered, where it refused the report.
pub fn ingest_refusal(reply: &str) -> (r: Option<String>)
    ensures
        r is Some <==> "ERR"@.is_prefix_of(trim(reply@)),
        r matches Some(t) ==> t@ == trim(reply@),
{
    let text = trimmed(reply);
    if text_starts_with(text.as_str(), "ERR") {
        Some(text)
    } else {
        None
    }
}

/// A run whose name is valid is kept inside the directory that it is put into.
pub proof fn law_run_stays_inside(dir: Seq<u8>, id: Seq<char>)
    requires
        ascii_safe(id),
        dir.len() > 0,
    ensures
        crate::path::base_name(crate::path::join(dir, run_file(id))) == run_file(id),
        dir.is_prefix_of(crate::path::join(dir, run_file(id))),
{
    let name = id + ".ajsonl"@;
    reveal_strlit(".ajsonl");
    assert forall|i: int| 0 <= i < name.len() implies name[i] as u32 != 0x2fu8 as u32 by {
        if i < id.len() {
            assert(name[i] == id[i]);
        } else {
            assert(name[i] == ".ajsonl"@[i - id.len()]);
        }
    }
    lemma_ascii_bytes(name, 0x2f);
    crate::path::law_base_name_of_join(dir, run_file(id));
}

/// The lines of a report that could be read.
pub open spec fn legible(evs: Seq<Option<RawEvent>>) -> Seq<Option<RawEvent>>
    decreases evs.len(),
{
    if evs.len() == 0 {
        evs
    } else if evs.last() is Some {
        legible(evs.drop_last()).push(evs.last())
    } else {
        legible(evs.drop_last())
    }
}

/// Lines of a report that cannot be read do not count.
pub proof fn law_illegible_lines(run: ParsedRun, evs: Seq<Option<RawEvent>>)
    ensures
        run.reports(evs) <==> run.reports(legible(evs)),
{
    lemma_legible(evs);
}

/// What a report says is said by the lines that could be read.
proof fn lemma_legible(evs: Seq<Option<RawEvent>>)
    ensures
        last_run(legible(evs)) == last_run(evs),
        play_names(legible(evs)) == play_names(evs),
        task_views(legible(evs)) == task_views(evs),
        last_stats(legible(evs)) == last_stats(evs),
    decreases evs.len(),
{
    if evs.len() > 0 {
        lemma_legible(evs.drop_last());
        let before = legible(evs.drop_last());
        assert(before.push(evs.last()).drop_last() =~= before);
        assert(before.push(evs.last()).last() == evs.last());
    }
}

/// The lines of a report that is read in two parts, with a line feed between them.
pub proof fn law_lines_in_parts(a: Seq<u8>, b: Seq<u8>)
    ensures
        filled(byte_lines(a.push(LINE_FEED) + b)) == filled(byte_lines(a)) + filled(byte_lines(b)),
    decreases a.len(),
{
    let s = a.push(LINE_FEED) + b;
    lemma_line_len(a);
    let k = line_len(a);
    assert forall|i: int| 0 <= i < k implies s[i] != LINE_FEED by {
        assert(s[i] == a[i]);
    }
    assert(s[k] == LINE_FEED);
    lemma_line_len_is(s, k);
    assert(line(s) =~= a.take(k));
    let rest = byte_lines(after_line(s));
    assert(byte_lines(s).drop_first() =~= rest);
    if a.len() == 0 {
        assert(after_line(s) =~= b);
        assert(filled(byte_lines(a)) =~= Seq::<Seq<u8>>::empty());
        assert(filled(byte_lines(s)) =~= filled(byte_lines(a)) + filled(byte_lines(b)));
    } else {
        assert(byte_lines(a).drop_first() =~= byte_lines(after_line(a)));
        let head = line(a);
        let tail = byte_lines(after_line(a));
        assert(byte_lines(s)[0] == head);
        assert(byte_lines(a)[0] == head);
        let front = if head.len() > 0 {
            seq![head]
        } else {
            Seq::empty()
        };
        assert(filled(byte_lines(a)) =~= front + filled(tail));
        assert(filled(byte_lines(s)) =~= front + filled(rest));
        if k < a.len() {
            assert(after_line(s) =~= after_line(a).push(LINE_FEED) + b);
            law_lines_in_parts(after_line(a), b);
            assert(filled(rest) == filled(tail) + filled(byte_lines(b)));
            assert(filled(byte_lines(s)) =~= filled(byte_lines(a)) + filled(byte_lines(b)));
        } else {
            assert(after_line(s) =~= b);
            assert(tail =~= Seq::<Seq<u8>>::empty());
            assert(filled(tail) =~= Seq::<Seq<u8>>::empty());
            assert(filled(byte_lines(s)) =~= filled(byte_lines(a)) + filled(byte_lines(b)));
        }
    }
}

/// What the two parts of a report say together.
proof fn lemma_parts(a: Seq<Option<RawEvent>>, b: Seq<Option<RawEvent>>)
    ensures
        last_run(a + b) == if last_run(b) is Some {
            last_run(b)
        } else {
            last_run(a)
        },
        play_names(a + b) == play_names(a) + play_names(b),
        task_views(a + b) == task_views(a) + task_views(b),
        last_stats(a + b) == last_stats(a).union_prefer_right(last_stats(b)),
    decreases b.len(),
{
    if b.len() == 0 {
        assert(a + b =~= a);
        assert(play_names(a) + play_names(b) =~= play_names(a));
        assert(task_views(a) + task_views(b) =~= task_views(a));
        assert(last_stats(a).union_prefer_right(last_stats(b)) =~= last_stats(a));
    } else {
        lemma_parts(a, b.drop_last());
        assert((a + b).drop_last() =~= a + b.drop_last());
        assert((a + b).last() == b.last());
        assert(play_names(a + b) =~= play_names(a) + play_names(b));
        assert(task_views(a + b) =~= task_views(a) + task_views(b));
        assert(last_stats(a + b) =~= last_stats(a).union_prefer_right(last_stats(b)));
    }
}

/// Some row is of this host.
pub open spec fn has_host(rows: Seq<HostRow>, host: Seq<char>) -> bool {
    exists|i: int| 0 <= i < rows.len() && (#[trigger] rows[i]).host@ == host
}

/// Rows that say what `m` says have the rows of `m`.
proof fn lemma_rows_are(rows: Seq<HostRow>, m: Map<Seq<char>, HostStats>, host: Seq<char>)
    requires
        rows_are(rows, m),
    ensures
        has_host(rows, host) <==> m.contains_key(host),
        forall|stats: HostStats| #[trigger]
            has_row(rows, host, stats) <==> m.contains_key(host) && m[host] == stats,
{
    if m.contains_key(host) {
        assert(has_row(rows, host, m[host]));
        let i = choose|i: int|
            0 <= i < rows.len() && (#[trigger] rows[i]).host@ == host && rows[i].stats == m[host];
        assert(rows[i].host@ == host);
    }
    if has_host(rows, host) {
        let i = choose|i: int| 0 <= i < rows.len() && (#[trigger] rows[i]).host@ == host;
        assert(m.contains_key(rows[i].host@));
    }
    assert forall|stats: HostStats| #[trigger] has_row(rows, host, stats) implies m.contains_key(
        host,
    ) && m[host] == stats by {
        let i = choose|i: int|
            0 <= i < rows.len() && (#[trigger] rows[i]).host@ == host && rows[i].stats == stats;
        assert(m.contains_key(rows[i].host@));
    }
}

/// The same run is described: its name, playbook, user, controller and start.
pub open spec fn same_run(r: ParsedRun, s: ParsedRun) -> bool {
    &&& r.run_id@ == s.run_id@
    &&& r.playbook@ == s.playbook@
    &&& r.user@ == s.user@
    &&& r.controller@ == s.controller@
    &&& r.started == s.started
}

/// A report that is read in two parts: the plays and the tasks of the second follow those of the
/// first, what the second says of a host counts, and so does its description of the run, if it has
/// one.
pub proof fn law_report_in_parts(
    a: Seq<Option<RawEvent>>,
    b: Seq<Option<RawEvent>>,
    first: ParsedRun,
    second: ParsedRun,
    whole: ParsedRun,
)
    requires
        first.reports(a),
        second.reports(b),
        whole.reports(a + b),
    ensures
        views(whole.plays@) == views(first.plays@) + views(second.plays@),
        tasks_view(whole.tasks@) == tasks_view(first.tasks@) + tasks_view(second.tasks@),
        forall|host: Seq<char>, stats: HostStats| #[trigger]
            has_row(whole.host_stats@, host, stats) <==> has_row(second.host_stats@, host, stats)
                || (has_row(first.host_stats@, host, stats) && !has_host(second.host_stats@, host)),
        last_run(b) is Some ==> same_run(whole, second),
        last_run(b) is None ==> same_run(whole, first),
{
    lemma_parts(a, b);
    assert forall|host: Seq<char>, stats: HostStats| #[trigger]
        has_row(whole.host_stats@, host, stats) <==> has_row(second.host_stats@, host, stats) || (
        has_row(first.host_stats@, host, stats) && !has_host(second.host_stats@, host)) by {
        lemma_rows_are(whole.host_stats@, last_stats(a + b), host);
        lemma_rows_are(first.host_stats@, last_stats(a), host);
        lemma_rows_are(second.host_stats@, last_stats(b), host);
    }
    if last_run(a + b) is None {
        assert(whole.run_id@ =~= first.run_id@);
        assert(whole.playbook@ =~= first.playbook@);
        assert(whole.user@ =~= first.user@);
        assert(whole.controller@ =~= first.controller@);
    }
}

/// What a report of one line says, by the kind of the line, each field by its name. With what
/// reading in parts gives, this says what every report says.
pub proof fn law_report_of_a_line(run: ParsedRun, e: RawEvent)
    requires
        run.reports(seq![Some(e)]),
    ensures
        e.kind@ == "run"@ ==> run.run_id@ == e.id@ && run.playbook@ == e.playbook@ && run.user@
            == e.user@ && run.controller@ == e.controller@ && run.started == e.started,
        e.kind@ != "run"@ ==> run.run_id@.len() == 0 && run.playbook@.len() == 0 && run.user@.len()
            == 0 && run.controller@.len() == 0 && run.started == 0,
        e.kind@ == "play"@ && e.name@.len() > 0 ==> views(run.plays@) == seq![e.name@],
        e.kind@ != "play"@ || e.name@.len() == 0 ==> run.plays@.len() == 0,
        e.kind@ == "task"@ ==> run.tasks@.len() == 1,
        e.kind@ == "task"@ ==> run.tasks@[0].name@ == e.name@ && run.tasks@[0].module@ == e.module@
            && run.tasks@[0].host@ == e.host@ && run.tasks@[0].status@ == e.status@
            && run.tasks@[0].rc == e.rc && run.tasks@[0].duration == e.t,
        e.kind@ == "task"@ && encode_utf8(e.stdout@).len() <= 8192
            ==> run.tasks@[0].stdout_snippet@ == e.stdout@,
        e.kind@ == "task"@ && encode_utf8(e.stdout@).len() > 8192 ==> exists|head: Seq<char>|
            #[trigger]
            head.is_prefix_of(e.stdout@) && run.tasks@[0].stdout_snippet@ == head + "..."@
                && encode_utf8(head).len() <= 8192 && head.len() < e.stdout@.len() && encode_utf8(
                e.stdout@.take(head.len() as int + 1),
            ).len() > 8192,
        e.kind@ != "task"@ ==> run.tasks@.len() == 0,
        e.kind@ == "stats"@ ==> run.host_stats@.len() == 1,
        e.kind@ == "stats"@ ==> run.host_stats@[0].host@ == e.host@ && run.host_stats@[0].stats.ok
            == e.ok && run.host_stats@[0].stats.changed == e.changed
            && run.host_stats@[0].stats.failed == e.failed && run.host_stats@[0].stats.unreachable
            == e.unreachable && run.host_stats@[0].stats.skipped == e.skipped,
        e.kind@ != "stats"@ ==> run.host_stats@.len() == 0,
{
    let evs = seq![Some(e)];
    reveal_with_fuel(last_run, 2);
    reveal_with_fuel(play_names, 2);
    reveal_with_fuel(task_views, 2);
    reveal_with_fuel(last_stats, 2);
    assert(evs.drop_last() =~= Seq::<Option<RawEvent>>::empty());
    assert(evs.last() == Some(e));
    assert(of_kind(evs.last(), e.kind@));
    lemma_kinds_differ();
    assert(views(run.plays@).len() == run.plays@.len());
    assert(tasks_view(run.tasks@).len() == run.tasks@.len());
    if e.kind@ == "play"@ && e.name@.len() > 0 {
        assert(views(run.plays@) =~= seq![e.name@]);
    }
    if e.kind@ == "task"@ {
        assert(task_views(evs) =~= seq![task_of(e)]);
        assert(tasks_view(run.tasks@)[0] == run.tasks@[0]@);
        law_shortened(e.stdout@, 8192, "..."@);
    }
    let rows = run.host_stats@;
    if e.kind@ == "stats"@ {
        let m = last_stats(evs);
        assert(m =~= Map::empty().insert(e.host@, stats_of(e)));
        assert(m.contains_key(e.host@));
        assert(has_row(rows, e.host@, m[e.host@]));
        if rows.len() > 1 {
            assert(m.contains_key(rows[0].host@));
            assert(m.contains_key(rows[1].host@));
            assert(rows[0].host@ != rows[1].host@);
        }
        assert(m.contains_key(rows[0].host@));
    } else if rows.len() > 0 {
        assert(last_stats(evs).contains_key(rows[0].host@));
    }
}

/// The names of the kinds are different.
proof fn lemma_kinds_differ()
    ensures
        "run"@ != "play"@,
        "run"@ != "task"@,
        "run"@ != "stats"@,
        "play"@ != "task"@,
        "play"@ != "stats"@,
        "task"@ != "stats"@,
{
    reveal_strlit("run");
    reveal_strlit("play");
    reveal_strlit("task");
    reveal_strlit("stats");
    assert("play"@[0] == 'p');
    assert("task"@[0] == 't');
    assert("run"@[0] == 'r');
    assert("stats"@[0] == 's');
}

/// The row of a host says what the last line of statistics for it says, number by number.
pub proof fn law_last_stats_count(run: ParsedRun, evs: Seq<Option<RawEvent>>, k: int)
    requires
        run.reports(evs),
        0 <= k < evs.len(),
        evs[k] is Some,
        evs[k]->0.kind@ == "stats"@,
        forall|j: int|
            k < j < evs.len() && (#[trigger] evs[j]) is Some && evs[j]->0.kind@ == "stats"@
                ==> evs[j]->0.host@ != evs[k]->0.host@,
    ensures
        exists|i: int|
            0 <= i < run.host_stats@.len() && (#[trigger] run.host_stats@[i]).host@ == evs[k]->0.host@
                && run.host_stats@[i].stats.ok == evs[k]->0.ok && run.host_stats@[i].stats.changed
                == evs[k]->0.changed && run.host_stats@[i].stats.failed == evs[k]->0.failed
                && run.host_stats@[i].stats.unreachable == evs[k]->0.unreachable
                && run.host_stats@[i].stats.skipped == evs[k]->0.skipped,
{
    let e = evs[k]->0;
    lemma_last_stats(evs, k);
    let m = last_stats(evs);
    let rows = run.host_stats@;
    assert(has_row(rows, e.host@, m[e.host@]));
    let i = choose|i: int|
        0 <= i < rows.len() && (#[trigger] rows[i]).host@ == e.host@ && rows[i].stats == m[e.host@];
    assert(run.host_stats@[i].host@ == e.host@);
}

/// What was reported last of a host is kept.
proof fn lemma_last_stats(evs: Seq<Option<RawEvent>>, k: int)
    requires
        0 <= k < evs.len(),
        of_kind(evs[k], "stats"@),
        forall|j: int|
            k < j < evs.len() && (#[trigger] evs[j]) is Some && evs[j]->0.kind@ == "stats"@
                ==> evs[j]->0.host@ != evs[k]->0.host@,
    ensures
        last_stats(evs).contains_key(evs[k]->0.host@),
        last_stats(evs)[evs[k]->0.host@] == stats_of(evs[k]->0),
    decreases evs.len(),
{
    if k < evs.len() - 1 {
        let fewer = evs.drop_last();
        assert forall|j: int|
            k < j < fewer.len() && (#[trigger] fewer[j]) is Some && fewer[j]->0.kind@
                == "stats"@ implies fewer[j]->0.host@ != fewer[k]->0.host@ by {
            assert(fewer[j] == evs[j]);
        }
        lemma_last_stats(fewer, k);
        assert(evs[evs.len() - 1] == evs.last());
    }
}

/// Every row of a run is of a host that some line of statistics is about, and no host has two.
pub proof fn law_rows_are_reported(run: ParsedRun, evs: Seq<Option<RawEvent>>, i: int)
    requires
        run.reports(evs),
        0 <= i < run.host_stats@.len(),
    ensures
        exists|k: int|
            0 <= k < evs.len() && (#[trigger] evs[k]) is Some && evs[k]->0.kind@ == "stats"@
                && evs[k]->0.host@ == run.host_stats@[i].host@,
        forall|j: int|
            0 <= j < run.host_stats@.len() && j != i ==> (#[trigger] run.host_stats@[j]).host@
                != run.host_stats@[i].host@,
{
    let rows = run.host_stats@;
    assert(last_stats(evs).contains_key(rows[i].host@));
    lemma_stats_reported(evs, rows[i].host@);
}

/// A host of which something is kept was reported.
proof fn lemma_stats_reported(evs: Seq<Option<RawEvent>>, host: Seq<char>)
    requires
        last_stats(evs).contains_key(host),
    ensures
        exists|k: int|
            0 <= k < evs.len() && (#[trigger] evs[k]) is Some && evs[k]->0.kind@ == "stats"@
                && evs[k]->0.host@ == host,
    decreases evs.len(),
{
    let fewer = evs.drop_last();
    if of_kind(evs.last(), "stats"@) && evs.last()->0.host@ == host {
        assert(evs[evs.len() - 1] is Some);
    } else {
        lemma_stats_reported(fewer, host);
        let k = choose|k: int|
            0 <= k < fewer.len() && (#[trigger] fewer[k]) is Some && fewer[k]->0.kind@ == "stats"@
                && fewer[k]->0.host@ == host;
        assert(evs[k] == fewer[k]);
    }
}

/// The row of a task shows its name, host, module, status, code and duration, in this order.
pub proof fn law_task_row(t: TaskView, duration: Seq<char>)
    ensures
        task_row(t, duration) == left_column(shortened(t.name, 29, "…"@), 30) + " "@ + left_column(
            shortened(t.host, 19, "…"@),
            20,
        ) + " "@ + left_column(shortened(t.module, 14, "…"@), 15) + " "@ + left_column(t.status, 10)
            + " "@ + left_column(signed_decimal(t.rc as int), 8) + " "@ + (duration + "s"@),
{
    let a = left(shortened(t.name, 29, "…"@), 30);
    let b = left(shortened(t.host, 19, "…"@), 20);
    let c = left(shortened(t.module, 14, "…"@), 15);
    let d = left(t.status, 10);
    let e = left(signed_decimal(t.rc as int), 8);
    let f = plain(duration + "s"@);
    lemma_row_of_six(a, b, c, d, e, f);
    assert(rendered(f) =~= duration + "s"@);
}

/// The row of a host shows its name and how many tasks went well, changed something, failed, could
/// not reach it and were skipped, in this order.
pub proof fn law_stats_row(r: HostRow)
    ensures
        stats_row(r) == left_column(r.host@, 20) + " "@ + right_column(
            decimal(r.stats.ok as nat),
            6,
        ) + " "@ + right_column(decimal(r.stats.changed as nat), 8) + " "@ + right_column(
            decimal(r.stats.failed as nat),
            7,
        ) + " "@ + right_column(decimal(r.stats.unreachable as nat), 12) + " "@ + right_column(
            decimal(r.stats.skipped as nat),
            8,
        ),
{
    lemma_row_of_six(
        left(r.host@, 20),
        right(decimal(r.stats.ok as nat), 6),
        right(decimal(r.stats.changed as nat), 8),
        right(decimal(r.stats.failed as nat), 7),
        right(decimal(r.stats.unreachable as nat), 12),
        right(decimal(r.stats.skipped as nat), 8),
    );
}

/// A row of six columns.
proof fn lemma_row_of_six(
    a: CellView,
    b: CellView,
    c: CellView,
    d: CellView,
    e: CellView,
    f: CellView,
)
    ensures
        row(seq![a, b, c, d, e, f]) == rendered(a) + " "@ + rendered(b) + " "@ + rendered(c) + " "@
            + rendered(d) + " "@ + rendered(e) + " "@ + rendered(f),
{
    reveal_strlit(" ");
    assert(" "@ =~= seq![' ']);
    law_row(seq![a], a);
    law_row(seq![a], b);
    assert(seq![a].push(b) =~= seq![a, b]);
    law_row(seq![a, b], c);
    assert(seq![a, b].push(c) =~= seq![a, b, c]);
    law_row(seq![a, b, c], d);
    assert(seq![a, b, c].push(d) =~= seq![a, b, c, d]);
    law_row(seq![a, b, c, d], e);
    assert(seq![a, b, c, d].push(e) =~= seq![a, b, c, d, e]);
    law_row(seq![a, b, c, d, e], f);
    assert(seq![a, b, c, d, e].push(f) =~= seq![a, b, c, d, e, f]);
}

/// Each task is shown behind the ones before it: its row, and then the first three lines of what
/// it printed, or all where there are fewer, set in by two blanks.
pub proof fn law_task_block(
    tasks: Seq<TaskView>,
    t: TaskView,
    durations: Seq<Seq<char>>,
    d: Seq<char>,
)
    requires
        durations.len() == tasks.len(),
    ensures
        ({
            let l = lines(t.stdout_snippet);
            let n = if l.len() < 3 {
                l.len()
            } else {
                3
            };
            task_block(tasks.push(t), durations.push(d)) == task_block(tasks, durations) + seq![
                task_row(t, d),
            ] + Seq::new(n, |i: int| "  "@ + l[i])
        }),
        task_block(Seq::empty(), durations) == Seq::<Seq<char>>::empty(),
{
    let more = tasks.push(t);
    assert(more.drop_last() =~= tasks);
    lemma_task_block(tasks, durations, durations.push(d));
    assert(task_block(tasks, durations).push(task_row(t, d)) =~= task_block(tasks, durations)
        + seq![task_row(t, d)]);
}

/// Only the durations of the tasks count.
proof fn lemma_task_block(tasks: Seq<TaskView>, a: Seq<Seq<char>>, b: Seq<Seq<char>>)
    requires
        a.len() >= tasks.len(),
        b.len() >= tasks.len(),
        forall|i: int| 0 <= i < tasks.len() ==> a[i] == b[i],
    ensures
        task_block(tasks, a) == task_block(tasks, b),
    decreases tasks.len(),
{
    if tasks.len() > 0 {
        lemma_task_block(tasks.drop_last(), a, b);
    }
}

/// What is shown of a run: what describes it, when it began, its plays, its tasks and its hosts;
/// of what it does not have, nothing.
pub proof fn law_shown(
    run: ParsedRun,
    started: Option<String>,
    durations: Seq<Seq<char>>,
    rows: Seq<HostRow>,
)
    ensures
        ({
            let head = seq![
                "Run:        "@ + run.run_id@,
                "Playbook:   "@ + run.playbook@,
                "User:       "@ + run.user@,
                "Controller: "@ + run.controller@,
            ];
            let time = match started {
                Some(t) => seq!["Started:    "@ + t@],
                None => Seq::empty(),
            };
            let plays = if run.plays@.len() > 0 {
                seq!["Plays:      "@ + join(views(run.plays@), ", "@)]
            } else {
                Seq::empty()
            };
            let tasks = if run.tasks@.len() > 0 {
                seq![""@, "TASKS:"@, task_head()] + task_block(tasks_view(run.tasks@), durations)
            } else {
                Seq::empty()
            };
            let hosts = if rows.len() > 0 {
                seq![""@, "STATS:"@, stats_head()] + Seq::new(
                    rows.len(),
                    |i: int| stats_row(rows[i]),
                )
            } else {
                Seq::empty()
            };
            shown(run, started, durations, rows) == head + time + plays + tasks + hosts
        }),
{
    if started is Some {
        assert(text_or(started, ""@) == started->0@);
    }
}

/// The line that names a report is the first of its kind, and there is none only where no line is.
pub proof fn law_first_run(evs: Seq<Option<RawEvent>>)
    ensures
        match first_run(evs) {
            Some(e) => exists|k: int|
                0 <= k < evs.len() && #[trigger] evs[k] == Some(e) && e.kind@ == "run"@ && forall|
                    j: int,
                |
                    0 <= j < k ==> !((#[trigger] evs[j]) is Some && evs[j]->0.kind@ == "run"@),
            None => forall|j: int|
                0 <= j < evs.len() ==> !((#[trigger] evs[j]) is Some && evs[j]->0.kind@ == "run"@),
        },
    decreases evs.len(),
{
    if evs.len() > 0 {
        if of_kind(evs[0], "run"@) {
            assert(evs[0] == Some(evs[0]->0));
        } else {
            let rest = evs.drop_first();
            law_first_run(rest);
            assert forall|j: int| 0 < j < evs.len() implies #[trigger] evs[j] == rest[j - 1] by {}
            match first_run(evs) {
                Some(e) => {
                    let k = choose|k: int|
                        0 <= k < rest.len() && #[trigger] rest[k] == Some(e) && e.kind@ == "run"@
                            && forall|j: int|
                            0 <= j < k ==> !((#[trigger] rest[j]) is Some && rest[j]->0.kind@
                                == "run"@);
                    assert(evs[k + 1] == Some(e));
                    assert forall|j: int| 0 <= j < k + 1 implies !((#[trigger] evs[j]) is Some
                        && evs[j]->0.kind@ == "run"@) by {
                        if j > 0 {
                            assert(evs[j] == rest[j - 1]);
                        }
                    }
                },
                None => {
                    assert forall|j: int| 0 <= j < evs.len() implies !((#[trigger] evs[j]) is Some
                        && evs[j]->0.kind@ == "run"@) by {
                        if j > 0 {
                            assert(evs[j] == rest[j - 1]);
                        }
                    }
                },
            }
        }
    }
}

/// A run may have a name of 5 to 64 bytes that is made of letters, digits, `-` and `_`, and no
/// other.
pub proof fn law_run_id(id: Seq<char>)
    ensures
        run_id_ok(id) <==> encode_utf8(id).len() >= 5 && encode_utf8(id).len() <= 64 && forall|
            i: int,
        |
            0 <= i < id.len() ==> (#[trigger] id[i] == '-' || id[i] == '_' || unicode_alphanumeric(
                id[i],
            )),
{
    if forall|i: int|
        0 <= i < id.len() ==> (#[trigger] id[i] == '-' || id[i] == '_' || unicode_alphanumeric(
            id[i],
        )) {
        assert forall|i: int| 0 <= i < id.len() implies run_id_char(#[trigger] id[i]) by {}
    }
    if run_id_ok(id) {
        assert forall|i: int| 0 <= i < id.len() implies (#[trigger] id[i] == '-' || id[i] == '_'
            || unicode_alphanumeric(id[i])) by {
            assert(run_id_char(id[i]));
        }
    }
}

/// A run that is kept under its file name is listed by its name.
pub proof fn law_run_listed(entries: Seq<DirEntry>, i: int, id: Seq<char>)
    requires
        0 <= i < entries.len(),
        !entries[i].is_symlink,
        id.len() > 0,
        entries[i].name@ == run_file(id),
    ensures
        ordered_texts(runs_in(entries)).contains(id),
{
    let tail = encode_utf8("ajsonl"@);
    reveal_strlit("ajsonl");
    reveal_strlit(".ajsonl");
    is_ascii_chars_encode_utf8("ajsonl"@);
    is_ascii_chars_encode_utf8(".ajsonl"@);
    lemma_encode_concat(id, ".ajsonl"@);
    assert(encode_utf8(".ajsonl"@) =~= seq![DOT] + tail);
    assert(tail =~= seq![0x61u8, 0x6au8, 0x73u8, 0x6fu8, 0x6eu8, 0x6cu8]);
    let head = encode_utf8(id);
    assert(head.len() > 0) by {
        assert(head == encode_scalar(id[0] as u32) + encode_utf8(id.drop_first()));
    }
    assert(run_file(id) =~= head.push(DOT) + tail);
    law_stem_extension(head, tail);
    encode_utf8_valid_utf8(id);
    encode_utf8_decode_utf8(id);
    lemma_runs_in(entries, i);
    law_ordered_texts_contains(runs_in(entries), id);
}

/// An entry that is a run is among the runs of the directory.
proof fn lemma_runs_in(entries: Seq<DirEntry>, i: int)
    requires
        0 <= i < entries.len(),
        run_entry(entries[i]),
    ensures
        runs_in(entries).contains(lossy(stem(entries[i].name@))),
    decreases entries.len(),
{
    let name = lossy(stem(entries[i].name@));
    let before = runs_in(entries.drop_last());
    let all = runs_in(entries);
    if i == entries.len() - 1 {
        assert(all[all.len() - 1] == name);
    } else {
        lemma_runs_in(entries.drop_last(), i);
        assert(entries.drop_last()[i] == entries[i]);
        let j = choose|j: int| 0 <= j < before.len() && before[j] == name;
        assert(all[j] == name);
    }
}

/// The runs of a user are kept in a directory of theirs, each under its name.
pub proof fn law_run_path(central: Seq<u8>, user: Seq<char>, id: Seq<char>)
    ensures
        run_file(id) == encode_utf8(id + ".ajsonl"@),
        central_runs(central, user) == crate::path::join(
            crate::path::join(central, encode_utf8(user)),
            encode_utf8("ansible"@),
        ),
{
}

/// Each run of a list has a row, behind a heading, with its name and its playbook.
pub proof fn law_run_list(user: Seq<char>, runs: Seq<ListedRun>, i: int)
    requires
        0 <= i < runs.len(),
    ensures
        run_list(user, runs).len() == runs.len() + 1,
        run_list(user, runs)[i + 1] == left_column(runs[i].id@, 40) + " "@ + match runs[i].playbook {
            Some(p) => p@,
            None => "(unreadable)"@,
        },
        run_list(user, Seq::empty()) == seq!["no ansible runs for "@ + user],
{
    lemma_row_of_two(runs[i].id@, 40, text_or(runs[i].playbook, "(unreadable)"@));
}

/// A line of a report that is not empty counts, and an empty one does not.
pub proof fn law_one_report_line(line: Seq<u8>)
    requires
        forall|i: int| 0 <= i < line.len() ==> line[i] != LINE_FEED,
    ensures
        line.len() > 0 ==> filled(byte_lines(line)) == seq![line],
        line.len() == 0 ==> filled(byte_lines(line)) == Seq::<Seq<u8>>::empty(),
{
    law_byte_lines(line, Seq::empty());
    reveal_with_fuel(filled, 2);
    if line.len() > 0 {
        assert(seq![line].drop_first() =~= Seq::<Seq<u8>>::empty());
        assert(seq![line] + Seq::<Seq<u8>>::empty() =~= seq![line]);
    } else {
        assert(line =~= Seq::<u8>::empty());
    }
}

/// What is shown of a run shows when it began by its own time, shifted by less than a day: wherever
/// that is positive and has a date, and nowhere else.
pub proof fn law_run_starts(bits: u64, started: Option<String>)
    requires
        run_starts(bits, started),
    ensures
        !positive(bits) ==> started is None,
        positive(bits) ==> (started is Some <==> whole(bits, i64::MAX as int) <= 8_210_266_876_799),
        started is Some ==> exists|t: int|
            whole(bits, i64::MAX as int) - 86_400 < t < whole(bits, i64::MAX as int) + 86_400
                && started->0@ == #[trigger] civil_text(t, "%Y-%m-%d %H:%M:%S"@),
{
    if positive(bits) {
        lemma_whole_not_negative(bits, i64::MAX as int);
    }
}

/// What is shown of a run is made of the run, of when it began, and of one row for each of its
/// hosts, by the order of their names.
pub proof fn law_shows_run(lines: Seq<Seq<char>>, run: ParsedRun, durations: Seq<Seq<char>>)
    requires
        shows_run(lines, run, durations),
    ensures
        exists|started: Option<String>, rows: Seq<HostRow>|
            run_starts(run.started, started) && lines == #[trigger] shown(
                run,
                started,
                durations,
                rows,
            ) && rows.to_multiset() == run.host_stats@.to_multiset() && forall|i: int, j: int|
                0 <= i < j < rows.len() ==> bytes_le(
                    encode_utf8((#[trigger] rows[i]).host@),
                    encode_utf8((#[trigger] rows[j]).host@),
                ),
{
    let (started, rows) = choose|started: Option<String>, rows: Seq<HostRow>|
        run_starts(run.started, started) && sorted(keys(rows)) && rows.to_multiset()
            == run.host_stats@.to_multiset() && lines == #[trigger] shown(
            run,
            started,
            durations,
            rows,
        );
    assert forall|i: int, j: int| 0 <= i < j < rows.len() implies bytes_le(
        encode_utf8((#[trigger] rows[i]).host@),
        encode_utf8((#[trigger] rows[j]).host@),
    ) by {
        assert(keys(rows)[i] == rows[i].key());
        assert(keys(rows)[j] == rows[j].key());
    }
    assert(lines == shown(run, started, durations, rows));
}

} // verus!
