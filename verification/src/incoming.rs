//! The traces that runs of Ansible leave in the sessions that they pass through.

use crate::ansible::truncate;
use crate::cast::{is_output, shows_output, Cast, Event};
use crate::format::{
    cell_views, join, join_texts, left, left_cell, left_column, lemma_row_of_three, plain,
    plain_cell, prefixed, row, row_of, shortened,
};
use crate::outside::{captured, civil_text, datable, local_text, local_time, regex_group};
use crate::text::{lemma_views_push, occurs_at, or_text, same_text, text_or, views};
use vstd::prelude::*;
use vstd::string::*;

verus! {

/// Sessions that are further apart than this, in seconds, belong to different runs.
pub const GAP_SECS: i64 = 120;

/// What was seen of one run: the directory that it worked in, the modules that it used, and when.
#[derive(Debug)]
pub struct Group {
    pub tmpdir: String,
    pub modules: Vec<String>,
    pub first_ts: i64,
    pub last_ts: i64,
}

/// What was seen of one run, with its texts as characters.
pub struct GroupView {
    pub tmpdir: Seq<char>,
    pub modules: Seq<Seq<char>>,
    pub first_ts: i64,
    pub last_ts: i64,
}

impl View for Group {
    type V = GroupView;

    open spec fn view(&self) -> GroupView {
        GroupView {
            tmpdir: self.tmpdir@,
            modules: views(self.modules@),
            first_ts: self.first_ts,
            last_ts: self.last_ts,
        }
    }
}

/// What was seen of some runs.
pub open spec fn group_views(groups: Seq<Group>) -> Seq<GroupView> {
    Seq::new(groups.len(), |i: int| groups[i]@)
}

/// A session at `ts` that works in `tmpdir` belongs to the run `g`.
pub open spec fn belongs(g: GroupView, tmpdir: Seq<char>, ts: i64) -> bool {
    g.tmpdir == tmpdir && -GAP_SECS < ts - g.last_ts < GAP_SECS
}

/// The first run that a session belongs to.
pub open spec fn find_group(groups: Seq<GroupView>, tmpdir: Seq<char>, ts: i64) -> Option<int>
    decreases groups.len(),
{
    if groups.len() == 0 {
        None
    } else if belongs(groups[0], tmpdir, ts) {
        Some(0)
    } else {
        match find_group(groups.drop_first(), tmpdir, ts) {
            Some(i) => Some(i + 1),
            None => None,
        }
    }
}

/// `s`, with one of each text that stands there several times in a row.
pub open spec fn dedup(s: Seq<Seq<char>>) -> Seq<Seq<char>>
    decreases s.len(),
{
    if s.len() <= 1 {
        s
    } else if s.last() == s[s.len() - 2] {
        dedup(s.drop_last())
    } else {
        dedup(s.drop_last()).push(s.last())
    }
}

/// The later of two times.
pub open spec fn later(a: i64, b: i64) -> i64 {
    if a < b {
        b
    } else {
        a
    }
}

/// The runs, once a session at `ts` was seen to work in `tmpdir` and to use `modules`.
pub open spec fn placed(
    groups: Seq<GroupView>,
    tmpdir: Seq<char>,
    modules: Seq<Seq<char>>,
    ts: i64,
) -> Seq<GroupView> {
    match find_group(groups, tmpdir, ts) {
        Some(i) => groups.update(
            i,
            GroupView {
                modules: dedup(groups[i].modules + modules),
                last_ts: later(groups[i].last_ts, ts),
                ..groups[i]
            },
        ),
        None => groups.push(GroupView { tmpdir, modules, first_ts: ts, last_ts: ts }),
    }
}

/// The runs, once a session was seen to work in each of `tmpdirs`.
pub open spec fn placed_all(
    groups: Seq<GroupView>,
    tmpdirs: Seq<Seq<char>>,
    modules: Seq<Seq<char>>,
    ts: i64,
) -> Seq<GroupView>
    decreases tmpdirs.len(),
{
    if tmpdirs.len() == 0 {
        groups
    } else {
        placed(placed_all(groups, tmpdirs.drop_last(), modules, ts), tmpdirs.last(), modules, ts)
    }
}

/// What is there of some texts.
pub open spec fn present(s: Seq<Option<Seq<char>>>) -> Seq<Seq<char>>
    decreases s.len(),
{
    if s.len() == 0 {
        Seq::empty()
    } else {
        match s.last() {
            Some(t) => present(s.drop_last()).push(t),
            None => present(s.drop_last()),
        }
    }
}

/// What a group of a regular expression matched in a text.
pub open spec fn matched(pattern: Seq<char>, group: int, text: Seq<char>) -> Seq<Seq<char>> {
    match regex_group(pattern, group, text) {
        Some(found) => present(found),
        None => Seq::empty(),
    }
}

/// What a session printed.
pub open spec fn printed(events: Seq<Event>) -> Seq<char>
    decreases events.len(),
{
    if events.len() == 0 {
        Seq::empty()
    } else if is_output(events.last()) {
        printed(events.drop_last()) + events.last().2@
    } else {
        printed(events.drop_last())
    }
}

/// The directories that a run works in.
pub open spec fn tmpdir_pattern() -> Seq<char> {
    "ansible-tmp-(\\d+\\.\\d+)-(\\d+)-\\d+"@
}

/// The programs that a run sends; the first group is the name of the module.
pub open spec fn module_pattern() -> Seq<char> {
    "AnsiballZ_(\\w+)\\.py"@
}

/// The runs that were seen in some sessions, in this order.
pub open spec fn seen(casts: Seq<Cast>) -> Seq<GroupView>
    decreases casts.len(),
{
    if casts.len() == 0 {
        Seq::empty()
    } else {
        let text = printed(casts.last().events@);
        placed_all(
            seen(casts.drop_last()),
            matched(tmpdir_pattern(), 0, text),
            matched(module_pattern(), 1, text),
            casts.last().header.timestamp,
        )
    }
}

/// A found run is among them, and the session belongs to it.
proof fn lemma_find_group(groups: Seq<GroupView>, tmpdir: Seq<char>, ts: i64)
    ensures
        find_group(groups, tmpdir, ts) matches Some(i) ==> 0 <= i < groups.len() && belongs(
            groups[i],
            tmpdir,
            ts,
        ),
    decreases groups.len(),
{
    if groups.len() > 0 && !belongs(groups[0], tmpdir, ts) {
        lemma_find_group(groups.drop_first(), tmpdir, ts);
    }
}

/// Takes away the texts that stand there several times in a row, but for one.
fn drop_repeats(list: &Vec<String>) -> (r: Vec<String>)
    ensures
        views(r@) == dedup(views(list@)),
{
    let mut out: Vec<String> = Vec::new();
    let ghost all = views(list@);
    let mut i: usize = 0;
    assert(views(out@) =~= dedup(all.take(0)));
    while i < list.len()
        invariant
            i <= list@.len(),
            all == views(list@),
            views(out@) == dedup(all.take(i as int)),
        decreases list@.len() - i,
    {
        let ghost longer = all.take(i + 1);
        proof {
            assert(longer.drop_last() =~= all.take(i as int));
            assert(longer.last() == list@[i as int]@);
            if i > 0 {
                assert(longer[longer.len() - 2] == list@[i - 1]@);
            }
        }
        if i == 0 || !same_text(list[i].as_str(), list[i - 1].as_str()) {
            let ghost before = out@;
            out.push(list[i].clone());
            proof {
                lemma_views_push(before, list@[i as int]);
                if i == 0 {
                    assert(views(out@) =~= longer);
                }
            }
        }
        i = i + 1;
    }
    assert(all.take(i as int) =~= all);
    out
}

/// Appends copies of texts.
fn push_copies(out: &mut Vec<String>, list: &Vec<String>)
    ensures
        views(final(out)@) == views(old(out)@) + views(list@),
{
    let mut i: usize = 0;
    assert(views(out@) =~= views(old(out)@) + views(list@).take(0));
    while i < list.len()
        invariant
            i <= list@.len(),
            views(out@) == views(old(out)@) + views(list@).take(i as int),
        decreases list@.len() - i,
    {
        let ghost before = out@;
        out.push(list[i].clone());
        proof {
            lemma_views_push(before, list@[i as int]);
            assert(views(out@) =~= views(old(out)@) + views(list@).take(i + 1));
        }
        i = i + 1;
    }
    assert(views(list@).take(i as int) =~= views(list@));
}

/// Enters a session at `ts` that works in `tmpdir` and uses `modules`.
pub fn place(groups: &mut Vec<Group>, tmpdir: &str, modules: &Vec<String>, ts: i64)
    ensures
        group_views(final(groups)@) == placed(group_views(old(groups)@), tmpdir@, views(modules@), ts),
{
    let ghost gv = group_views(groups@);
    let mut i: usize = 0;
    assert(gv.skip(0) =~= gv);
    while i < groups.len()
        invariant
            i <= groups@.len(),
            groups@ == old(groups)@,
            gv == group_views(groups@),
            find_group(gv, tmpdir@, ts) == match find_group(gv.skip(i as int), tmpdir@, ts) {
                Some(k) => Some(k + i),
                None => None,
            },
        decreases groups@.len() - i,
    {
        let ghost rest = gv.skip(i as int);
        assert(rest[0] == groups@[i as int]@);
        let gap: i128 = ts as i128 - groups[i].last_ts as i128;
        if same_text(groups[i].tmpdir.as_str(), tmpdir) && -(GAP_SECS as i128) < gap && gap
            < GAP_SECS as i128 {
            assert(find_group(gv, tmpdir@, ts) == Some(i as int));
            let mut all: Vec<String> = Vec::new();
            push_copies(&mut all, &groups[i].modules);
            push_copies(&mut all, modules);
            assert(views(all@) =~= gv[i as int].modules + views(modules@));
            let last_ts: i64 = if groups[i].last_ts < ts {
                ts
            } else {
                groups[i].last_ts
            };
            let group = Group {
                tmpdir: groups[i].tmpdir.clone(),
                modules: drop_repeats(&all),
                first_ts: groups[i].first_ts,
                last_ts,
            };
            groups.set(i, group);
            assert(group_views(groups@) =~= placed(gv, tmpdir@, views(modules@), ts));
            return ;
        }
        assert(rest.drop_first() =~= gv.skip(i + 1));
        i = i + 1;
    }
    assert(find_group(gv, tmpdir@, ts) is None);
    let mut all: Vec<String> = Vec::new();
    push_copies(&mut all, modules);
    assert(views(all@) =~= views(modules@));
    groups.push(Group { tmpdir: tmpdir.to_owned(), modules: all, first_ts: ts, last_ts: ts });
    assert(group_views(groups@) =~= placed(gv, tmpdir@, views(modules@), ts));
}

/// Enters a session at `ts` that works in each of `tmpdirs` and uses `modules`.
pub fn place_session(groups: &mut Vec<Group>, tmpdirs: &Vec<String>, modules: &Vec<String>, ts: i64)
    ensures
        group_views(final(groups)@) == placed_all(
            group_views(old(groups)@),
            views(tmpdirs@),
            views(modules@),
            ts,
        ),
{
    let ghost g0 = group_views(groups@);
    let ghost all = views(tmpdirs@);
    let mut i: usize = 0;
    while i < tmpdirs.len()
        invariant
            i <= tmpdirs@.len(),
            all == views(tmpdirs@),
            group_views(groups@) == placed_all(g0, all.take(i as int), views(modules@), ts),
        decreases tmpdirs@.len() - i,
    {
        let ghost longer = all.take(i + 1);
        proof {
            assert(longer.drop_last() =~= all.take(i as int));
            assert(longer.last() == tmpdirs@[i as int]@);
        }
        place(groups, tmpdirs[i].as_str(), modules, ts);
        i = i + 1;
    }
    assert(all.take(i as int) =~= all);
}

/// What a group of a regular expression matched in a text.
fn matches_in(pattern: &str, group: usize, text: &str) -> (r: Vec<String>)
    ensures
        views(r@) == matched(pattern@, group as int, text@),
{
    let mut out: Vec<String> = Vec::new();
    assert(views(out@) =~= Seq::<Seq<char>>::empty());
    if let Some(found) = captured(pattern, group, text) {
        let ghost all = regex_group(pattern@, group as int, text@)->0;
        let mut i: usize = 0;
        while i < found.len()
            invariant
                i <= found@.len(),
                all.len() == found@.len(),
                forall|k: int|
                    0 <= k < found@.len() ==> #[trigger] all[k] == (match found@[k] {
                        Some(t) => Some(t@),
                        None => None,
                    }),
                views(out@) == present(all.take(i as int)),
            decreases found@.len() - i,
        {
            let ghost longer = all.take(i + 1);
            let ghost before = out@;
            proof {
                assert(longer.drop_last() =~= all.take(i as int));
                assert(longer.last() == all[i as int]);
            }
            if let Some(t) = &found[i] {
                out.push(t.clone());
                proof {
                    lemma_views_push(before, *t);
                }
            }
            i = i + 1;
        }
        assert(all.take(i as int) =~= all);
    }
    out
}

/// What a session printed.
pub fn printed_text(events: &Vec<Event>) -> (r: String)
    ensures
        r@ == printed(events@),
{
    let mut out = String::new();
    let mut i: usize = 0;
    while i < events.len()
        invariant
            i <= events@.len(),
            out@ == printed(events@.take(i as int)),
        decreases events@.len() - i,
    {
        proof {
            assert(events@.take(i + 1).drop_last() =~= events@.take(i as int));
            assert(events@.take(i + 1).last() == events@[i as int]);
        }
        if shows_output(&events[i]) {
            out.append(events[i].2.as_str());
        }
        i = i + 1;
    }
    assert(events@.take(i as int) =~= events@);
    out
}

/// The runs that were seen in some sessions.
pub fn find_runs(casts: &Vec<Cast>) -> (r: Vec<Group>)
    ensures
        group_views(r@) == seen(casts@),
{
    let mut groups: Vec<Group> = Vec::new();
    let mut i: usize = 0;
    assert(group_views(groups@) =~= seen(casts@.take(0)));
    while i < casts.len()
        invariant
            i <= casts@.len(),
            group_views(groups@) == seen(casts@.take(i as int)),
        decreases casts@.len() - i,
    {
        proof {
            assert(casts@.take(i + 1).drop_last() =~= casts@.take(i as int));
            assert(casts@.take(i + 1).last() == casts@[i as int]);
        }
        let text = printed_text(&casts[i].events);
        let tmpdirs = matches_in("ansible-tmp-(\\d+\\.\\d+)-(\\d+)-\\d+", 0, text.as_str());
        let modules = matches_in("AnsiballZ_(\\w+)\\.py", 1, text.as_str());
        place_session(&mut groups, &tmpdirs, &modules, casts[i].header.timestamp);
        i = i + 1;
    }
    assert(casts@.take(i as int) =~= casts@);
    groups
}

/// The row of a run; `first_seen` is when it was seen first, where that is known.
pub open spec fn group_row(g: GroupView, first_seen: Option<String>) -> Seq<char> {
    row(
        seq![
            left(shortened(g.tmpdir, 39, "…"@), 40),
            left(text_or(first_seen, "?"@), 22),
            plain(join(g.modules, ", "@)),
        ],
    )
}

/// What is shown of the runs that were seen in the sessions of a user.
pub open spec fn report(
    user: Seq<char>,
    sessions: nat,
    groups: Seq<GroupView>,
    first_seen: Seq<Option<String>>,
) -> Seq<Seq<char>> {
    if sessions == 0 {
        seq!["no sessions for "@ + user]
    } else if groups.len() == 0 {
        seq![
            "no ansible activity found in sessions for "@ + user,
            "hint: ttrack ansible-ingest imports runs from a callback plugin"@,
        ]
    } else {
        seq![
            row(seq![left("TMPDIR"@, 40), left("FIRST SEEN"@, 22), plain("MODULES"@)]),
        ] + Seq::new(groups.len(), |i: int| group_row(groups[i], first_seen[i]))
    }
}

/// What is shown of the runs that were seen in the sessions of a user. `sessions` is how many
/// there are, `first_seen` when each run was seen first, where that is known.
pub fn runs_report(
    user: &str,
    sessions: usize,
    groups: &Vec<Group>,
    first_seen: &Vec<Option<String>>,
) -> (r: Vec<String>)
    requires
        first_seen@.len() == groups@.len(),
    ensures
        views(r@) == report(user@, sessions as nat, group_views(groups@), first_seen@),
{
    let mut out: Vec<String> = Vec::new();
    let ghost wanted = report(user@, sessions as nat, group_views(groups@), first_seen@);
    if sessions == 0 {
        out.push(prefixed("no sessions for ", user));
        assert(views(out@) =~= wanted);
        return out;
    }
    if groups.len() == 0 {
        out.push(prefixed("no ansible activity found in sessions for ", user));
        out.push("hint: ttrack ansible-ingest imports runs from a callback plugin".to_owned());
        assert(views(out@) =~= wanted);
        return out;
    }
    let cells = vec![left_cell("TMPDIR", 40), left_cell("FIRST SEEN", 22), plain_cell("MODULES")];
    assert(cell_views(cells@) =~= seq![
        left("TMPDIR"@, 40),
        left("FIRST SEEN"@, 22),
        plain("MODULES"@),
    ]);
    out.push(row_of(&cells));
    let mut i: usize = 0;
    assert(views(out@) =~= wanted.take(1));
    while i < groups.len()
        invariant
            i <= groups@.len(),
            first_seen@.len() == groups@.len(),
            sessions > 0,
            groups@.len() > 0,
            wanted == report(user@, sessions as nat, group_views(groups@), first_seen@),
            views(out@) == wanted.take(i + 1),
        decreases groups@.len() - i,
    {
        let ghost before = out@;
        let g = &groups[i];
        let dir = truncate(g.tmpdir.as_str(), 39);
        let when = or_text(&first_seen[i], "?");
        let modules = join_texts(&g.modules, ", ");
        let cells = vec![
            left_cell(dir.as_str(), 40),
            left_cell(when, 22),
            plain_cell(modules.as_str()),
        ];
        let line = row_of(&cells);
        proof {
            assert(cell_views(cells@) =~= seq![left(dir@, 40), left(when@, 22), plain(modules@)]);
            assert(line@ == group_row(g@, first_seen@[i as int]));
            lemma_views_push(before, line);
            assert(wanted[i + 1] == group_row(group_views(groups@)[i as int], first_seen@[i as int]));
            assert(wanted.take(i + 2) =~= wanted.take(i + 1).push(line@));
        }
        out.push(line);
        i = i + 1;
    }
    assert(wanted.take(i + 1) =~= wanted);
    out
}

/// `first_seen` is when each run was seen first: there is a time where the timestamp has a date.
pub open spec fn first_times(groups: Seq<GroupView>, first_seen: Seq<Option<String>>) -> bool {
    &&& first_seen.len() == groups.len()
    &&& forall|i: int|
        0 <= i < groups.len() ==> (first_seen[i] is Some <==> datable(
            (#[trigger] groups[i]).first_ts as int,
        ))
    &&& forall|i: int|
        0 <= i < groups.len() && first_seen[i] is Some ==> local_text(
            (#[trigger] groups[i]).first_ts as int,
            first_seen[i]->0@,
        )
}

/// `lines` is what is shown of the runs that were seen in the sessions of a user, whatever the
/// time zone is.
pub open spec fn shows_runs(
    lines: Seq<Seq<char>>,
    user: Seq<char>,
    sessions: nat,
    groups: Seq<GroupView>,
) -> bool {
    exists|first_seen: Seq<Option<String>>|
        #[trigger] first_times(groups, first_seen) && lines == report(
            user,
            sessions,
            groups,
            first_seen,
        )
}

/// What is shown of the runs that were seen in the sessions of a user. `sessions` is how many
/// there are, `casts` what is in those whose header can be read.
pub fn cmd_incoming(user: &str, sessions: usize, casts: &Vec<Cast>) -> (r: Vec<String>)
    ensures
        shows_runs(views(r@), user@, sessions as nat, seen(casts@)),
{
    let groups = find_runs(casts);
    let mut times: Vec<Option<String>> = Vec::new();
    let mut i: usize = 0;
    while i < groups.len()
        invariant
            i <= groups@.len(),
            first_times(group_views(groups@).take(i as int), times@),
        decreases groups@.len() - i,
    {
        let ghost before = times@;
        let time = local_time(groups[i].first_ts, "%Y-%m-%d %H:%M:%S");
        times.push(time);
        proof {
            let some = group_views(groups@).take(i as int);
            let more = group_views(groups@).take(i + 1);
            assert forall|k: int| 0 <= k < more.len() implies (times@[k] is Some <==> datable(
                (#[trigger] more[k]).first_ts as int,
            )) by {
                if k < i {
                    assert(some[k] == more[k]);
                    assert(before[k] == times@[k]);
                }
            }
            assert forall|k: int| 0 <= k < more.len() && times@[k] is Some implies local_text(
                (#[trigger] more[k]).first_ts as int,
                times@[k]->0@,
            ) by {
                if k < i {
                    assert(some[k] == more[k]);
                    assert(before[k] == times@[k]);
                }
            }
        }
        i = i + 1;
    }
    assert(group_views(groups@).take(i as int) =~= group_views(groups@));
    runs_report(user, sessions, &groups, &times)
}

/// Entering a session keeps the runs that are known, each with the directory that it works in and
/// with when it was seen first, and adds one at most.
pub proof fn law_runs_are_kept(
    groups: Seq<GroupView>,
    tmpdir: Seq<char>,
    modules: Seq<Seq<char>>,
    ts: i64,
)
    ensures
        groups.len() <= placed(groups, tmpdir, modules, ts).len() <= groups.len() + 1,
        forall|i: int|
            0 <= i < groups.len() ==> {
                let g = #[trigger] placed(groups, tmpdir, modules, ts)[i];
                g.tmpdir == groups[i].tmpdir && g.first_ts == groups[i].first_ts && g.last_ts
                    >= groups[i].last_ts
            },
        exists|i: int|
            0 <= i < placed(groups, tmpdir, modules, ts).len() && #[trigger] placed(
                groups,
                tmpdir,
                modules,
                ts,
            )[i].tmpdir == tmpdir,
{
    lemma_find_group(groups, tmpdir, ts);
    let p = placed(groups, tmpdir, modules, ts);
    match find_group(groups, tmpdir, ts) {
        Some(i) => {
            assert(p[i].tmpdir == tmpdir);
        },
        None => {
            assert(p[groups.len() as int].tmpdir == tmpdir);
        },
    }
}

/// Two sessions in a row that work in one directory, which was not seen before, are of one run
/// when they are less than two minutes apart, and else of two. A run is shown with the time of its
/// first session.
pub proof fn law_sessions_of_a_run(casts: Seq<Cast>, a: Cast, b: Cast, tmpdir: Seq<char>)
    requires
        matched(tmpdir_pattern(), 0, printed(a.events@)) == seq![tmpdir],
        matched(tmpdir_pattern(), 0, printed(b.events@)) == seq![tmpdir],
        forall|i: int| 0 <= i < seen(casts).len() ==> (#[trigger] seen(casts)[i]).tmpdir != tmpdir,
    ensures
        ({
            let (t1, t2) = (a.header.timestamp, b.header.timestamp);
            let m1 = matched(module_pattern(), 1, printed(a.events@));
            let m2 = matched(module_pattern(), 1, printed(b.events@));
            seen(casts.push(a).push(b)) == if -120 < t2 - t1 < 120 {
                seen(casts).push(
                    GroupView {
                        tmpdir,
                        modules: dedup(m1 + m2),
                        first_ts: t1,
                        last_ts: later(t1, t2),
                    },
                )
            } else {
                seen(casts).push(
                    GroupView { tmpdir, modules: m1, first_ts: t1, last_ts: t1 },
                ).push(GroupView { tmpdir, modules: m2, first_ts: t2, last_ts: t2 })
            }
        }),
{
    let (t1, t2) = (a.header.timestamp, b.header.timestamp);
    let m1 = matched(module_pattern(), 1, printed(a.events@));
    let m2 = matched(module_pattern(), 1, printed(b.events@));
    let before = seen(casts);
    let run = GroupView { tmpdir, modules: m1, first_ts: t1, last_ts: t1 };
    let one = before.push(run);
    reveal_with_fuel(placed_all, 2);
    assert(seq![tmpdir].drop_last() =~= Seq::<Seq<char>>::empty());
    assert(casts.push(a).drop_last() =~= casts);
    assert(casts.push(a).push(b).drop_last() =~= casts.push(a));
    lemma_new_group(before, tmpdir, t1);
    assert(seen(casts.push(a)) == one);
    lemma_last_group(before, run, tmpdir, t2);
    let two = seen(casts.push(a).push(b));
    assert(two == placed(one, tmpdir, m2, t2));
    if -GAP_SECS < t2 - t1 < GAP_SECS {
        assert(two =~= before.push(
            GroupView { tmpdir, modules: dedup(m1 + m2), first_ts: t1, last_ts: later(t1, t2) },
        ));
    }
}

/// No run is found by a directory that was not seen before.
proof fn lemma_new_group(groups: Seq<GroupView>, tmpdir: Seq<char>, ts: i64)
    requires
        forall|i: int| 0 <= i < groups.len() ==> (#[trigger] groups[i]).tmpdir != tmpdir,
    ensures
        find_group(groups, tmpdir, ts) is None,
    decreases groups.len(),
{
    if groups.len() > 0 {
        let rest = groups.drop_first();
        assert forall|i: int| 0 <= i < rest.len() implies (#[trigger] rest[i]).tmpdir != tmpdir by {
            assert(rest[i] == groups[i + 1]);
        }
        assert(groups[0].tmpdir != tmpdir);
        lemma_new_group(rest, tmpdir, ts);
    }
}

/// Where only the last run works in a directory, it is found by it or none is.
proof fn lemma_last_group(groups: Seq<GroupView>, last: GroupView, tmpdir: Seq<char>, ts: i64)
    requires
        forall|i: int| 0 <= i < groups.len() ==> (#[trigger] groups[i]).tmpdir != tmpdir,
    ensures
        find_group(groups.push(last), tmpdir, ts) == if belongs(last, tmpdir, ts) {
            Some(groups.len() as int)
        } else {
            None
        },
    decreases groups.len(),
{
    let all = groups.push(last);
    reveal_with_fuel(find_group, 2);
    if groups.len() == 0 {
        assert(all[0] == last);
        assert(all.drop_first() =~= Seq::<GroupView>::empty());
    } else {
        let rest = groups.drop_first();
        assert forall|i: int| 0 <= i < rest.len() implies (#[trigger] rest[i]).tmpdir != tmpdir by {
            assert(rest[i] == groups[i + 1]);
        }
        assert(groups[0].tmpdir != tmpdir);
        assert(all[0] == groups[0]);
        assert(all.drop_first() =~= rest.push(last));
        lemma_last_group(rest, last, tmpdir, ts);
    }
}

/// What a session printed is the texts of all its events of output, one behind the other.
pub proof fn law_printed(a: Seq<Event>, b: Seq<Event>, ev: Event)
    ensures
        printed(a + b) == printed(a) + printed(b),
        printed(Seq::empty()) == Seq::<char>::empty(),
        ev.1@ == "o"@ ==> printed(seq![ev]) == ev.2@,
        ev.1@ != "o"@ ==> printed(seq![ev]) == Seq::<char>::empty(),
    decreases b.len(),
{
    reveal_with_fuel(printed, 2);
    assert(seq![ev].drop_last() =~= Seq::<Event>::empty());
    assert(Seq::<char>::empty() + ev.2@ =~= ev.2@);
    if b.len() == 0 {
        assert(a + b =~= a);
        assert(printed(a) + printed(b) =~= printed(a));
    } else {
        law_printed(a, b.drop_last(), ev);
        assert((a + b).drop_last() =~= a + b.drop_last());
        assert((a + b).last() == b.last());
        assert(printed(a + b) =~= printed(a) + printed(b));
    }
}

/// What stands in the text of an event of output stands in what the session printed, behind what
/// the events before it printed.
pub proof fn law_printed_holds(events: Seq<Event>, k: int, text: Seq<char>, i: int)
    requires
        0 <= k < events.len(),
        events[k].1@ == "o"@,
        occurs_at(events[k].2@, text, i),
    ensures
        occurs_at(printed(events), text, printed(events.take(k)).len() + i),
{
    let (a, b) = (events.take(k), events.skip(k + 1));
    let one = seq![events[k]];
    law_printed(a, one, events[k]);
    law_printed(a + one, b, events[k]);
    assert(a + one + b =~= events);
    let p = printed(a).len() + i;
    assert(printed(events).subrange(p, p + text.len() as int) =~= events[k].2@.subrange(
        i,
        i + text.len() as int,
    ));
}

/// What is there of two lists of texts is what is there of the first and then of the second.
pub proof fn law_present(
    a: Seq<Option<Seq<char>>>,
    b: Seq<Option<Seq<char>>>,
    text: Seq<char>,
)
    ensures
        present(a + b) == present(a) + present(b),
        present(seq![Some(text)]) == seq![text],
        present(seq![None]) == Seq::<Seq<char>>::empty(),
    decreases b.len(),
{
    reveal_with_fuel(present, 2);
    assert(seq![Some(text)].drop_last() =~= Seq::<Option<Seq<char>>>::empty());
    assert(seq![None::<Seq<char>>].drop_last() =~= Seq::<Option<Seq<char>>>::empty());
    assert(Seq::<Seq<char>>::empty().push(text) =~= seq![text]);
    if b.len() == 0 {
        assert(a + b =~= a);
        assert(present(a) + present(b) =~= present(a));
    } else {
        law_present(a, b.drop_last(), text);
        assert((a + b).drop_last() =~= a + b.drop_last());
        assert((a + b).last() == b.last());
        assert(present(a + b) =~= present(a) + present(b));
    }
}

/// Taking repeats away leaves every text that was there, adds none, and leaves no two alike side by
/// side; where there are no repeats nothing changes.
pub proof fn law_dedup(s: Seq<Seq<char>>, text: Seq<char>)
    ensures
        dedup(s).contains(text) <==> s.contains(text),
        forall|i: int| 0 < i < dedup(s).len() ==> #[trigger] dedup(s)[i] != dedup(s)[i - 1],
        s.len() > 0 ==> dedup(s).len() > 0 && dedup(s).last() == s.last(),
        (forall|i: int| 0 < i < s.len() ==> #[trigger] s[i] != s[i - 1]) ==> dedup(s) == s,
    decreases s.len(),
{
    if s.len() > 1 {
        let less = s.drop_last();
        let before = dedup(less);
        let all = dedup(s);
        law_dedup(less, text);
        assert(less.last() == s[s.len() - 2]);
        assert(forall|i: int| 0 <= i < less.len() ==> less[i] == s[i]);
        if s.contains(text) {
            let i = choose|i: int| 0 <= i < s.len() && s[i] == text;
            if i < less.len() {
                assert(less[i] == text);
                assert(before.contains(text));
                let j = choose|j: int| 0 <= j < before.len() && before[j] == text;
                assert(all[j] == text);
            } else {
                assert(all.last() == text);
                assert(all[all.len() - 1] == text);
            }
        }
        if all.contains(text) {
            let j = choose|j: int| 0 <= j < all.len() && all[j] == text;
            if j < before.len() {
                assert(before[j] == text);
                assert(before.contains(text));
                let i = choose|i: int| 0 <= i < less.len() && less[i] == text;
                assert(s[i] == text);
            } else {
                assert(s[s.len() - 1] == text);
            }
        }
        if forall|i: int| 0 < i < s.len() ==> #[trigger] s[i] != s[i - 1] {
            assert forall|i: int| 0 < i < less.len() implies #[trigger] less[i] != less[i - 1] by {
                assert(s[i] != s[i - 1]);
            }
            assert(s[s.len() - 1] != s[s.len() - 2]);
            assert(all =~= s);
        }
    }
}

/// Some run works in `tmpdir`, uses each of `modules`, and was seen at `ts` or later.
pub open spec fn run_seen(
    groups: Seq<GroupView>,
    tmpdir: Seq<char>,
    modules: Seq<Seq<char>>,
    ts: i64,
) -> bool {
    exists|i: int|
        0 <= i < groups.len() && (#[trigger] groups[i]).tmpdir == tmpdir && groups[i].last_ts >= ts
            && forall|m: Seq<char>| #[trigger] modules.contains(m) ==> groups[i].modules.contains(m)
}

/// A session that is entered is seen, and what was seen before still is.
proof fn lemma_placed_seen(
    groups: Seq<GroupView>,
    tmpdir: Seq<char>,
    modules: Seq<Seq<char>>,
    ts: i64,
    old_dir: Seq<char>,
    old_modules: Seq<Seq<char>>,
    old_ts: i64,
)
    ensures
        run_seen(placed(groups, tmpdir, modules, ts), tmpdir, modules, ts),
        run_seen(groups, old_dir, old_modules, old_ts) ==> run_seen(
            placed(groups, tmpdir, modules, ts),
            old_dir,
            old_modules,
            old_ts,
        ),
{
    let p = placed(groups, tmpdir, modules, ts);
    lemma_find_group(groups, tmpdir, ts);
    match find_group(groups, tmpdir, ts) {
        Some(i) => {
            let both = groups[i].modules + modules;
            assert forall|m: Seq<char>| #[trigger] modules.contains(m) implies p[i].modules.contains(
                m,
            ) by {
                let j = choose|j: int| 0 <= j < modules.len() && modules[j] == m;
                assert(both[groups[i].modules.len() + j] == m);
                law_dedup(both, m);
            }
            assert(p[i].tmpdir == tmpdir);
            if run_seen(groups, old_dir, old_modules, old_ts) {
                let k = choose|k: int|
                    0 <= k < groups.len() && (#[trigger] groups[k]).tmpdir == old_dir
                        && groups[k].last_ts >= old_ts && forall|m: Seq<char>| #[trigger]
                        old_modules.contains(m) ==> groups[k].modules.contains(m);
                assert(p[k].tmpdir == old_dir);
                if k == i {
                    assert forall|m: Seq<char>| #[trigger]
                        old_modules.contains(m) implies p[k].modules.contains(m) by {
                        let j = choose|j: int|
                            0 <= j < groups[i].modules.len() && groups[i].modules[j] == m;
                        assert(both[j] == m);
                        law_dedup(both, m);
                    }
                }
            }
        },
        None => {
            let n = groups.len() as int;
            assert(p[n].tmpdir == tmpdir);
            if run_seen(groups, old_dir, old_modules, old_ts) {
                let k = choose|k: int|
                    0 <= k < groups.len() && (#[trigger] groups[k]).tmpdir == old_dir
                        && groups[k].last_ts >= old_ts && forall|m: Seq<char>| #[trigger]
                        old_modules.contains(m) ==> groups[k].modules.contains(m);
                assert(p[k] == groups[k]);
            }
        },
    }
}

/// The same of a session that works in several directories.
proof fn lemma_placed_all_seen(
    groups: Seq<GroupView>,
    tmpdirs: Seq<Seq<char>>,
    modules: Seq<Seq<char>>,
    ts: i64,
    old_dir: Seq<char>,
    old_modules: Seq<Seq<char>>,
    old_ts: i64,
)
    ensures
        forall|j: int|
            0 <= j < tmpdirs.len() ==> run_seen(
                placed_all(groups, tmpdirs, modules, ts),
                #[trigger] tmpdirs[j],
                modules,
                ts,
            ),
        run_seen(groups, old_dir, old_modules, old_ts) ==> run_seen(
            placed_all(groups, tmpdirs, modules, ts),
            old_dir,
            old_modules,
            old_ts,
        ),
    decreases tmpdirs.len(),
{
    if tmpdirs.len() > 0 {
        let fewer = tmpdirs.drop_last();
        let before = placed_all(groups, fewer, modules, ts);
        lemma_placed_all_seen(groups, fewer, modules, ts, old_dir, old_modules, old_ts);
        lemma_placed_seen(before, tmpdirs.last(), modules, ts, old_dir, old_modules, old_ts);
        assert forall|j: int| 0 <= j < tmpdirs.len() implies run_seen(
            placed_all(groups, tmpdirs, modules, ts),
            #[trigger] tmpdirs[j],
            modules,
            ts,
        ) by {
            if j < fewer.len() {
                assert(fewer[j] == tmpdirs[j]);
                lemma_placed_seen(before, tmpdirs.last(), modules, ts, tmpdirs[j], modules, ts);
            }
        }
    }
}

/// Every directory that is matched in what a session printed is seen as that of a run, at the time
/// of the session or later, with every module that is matched there.
pub proof fn law_traces_are_seen(
    casts: Seq<Cast>,
    k: int,
    dirs: Seq<Option<Seq<char>>>,
    mods: Seq<Option<Seq<char>>>,
    tmpdir: Seq<char>,
)
    requires
        0 <= k < casts.len(),
        regex_group(
            "ansible-tmp-(\\d+\\.\\d+)-(\\d+)-\\d+"@,
            0,
            printed(casts[k].events@),
        ) == Some(dirs),
        regex_group("AnsiballZ_(\\w+)\\.py"@, 1, printed(casts[k].events@)) == Some(mods),
        dirs.contains(Some(tmpdir)),
    ensures
        run_seen(seen(casts), tmpdir, present(mods), casts[k].header.timestamp),
    decreases casts.len(),
{
    let fewer = casts.drop_last();
    let last = casts.last();
    let text = printed(last.events@);
    let found = matched(tmpdir_pattern(), 0, text);
    let used = matched(module_pattern(), 1, text);
    if k == casts.len() - 1 {
        lemma_present_contains(dirs, tmpdir);
        let j = choose|j: int| 0 <= j < present(dirs).len() && present(dirs)[j] == tmpdir;
        lemma_placed_all_seen(
            seen(fewer),
            found,
            used,
            last.header.timestamp,
            tmpdir,
            used,
            last.header.timestamp,
        );
        assert(found[j] == tmpdir);
    } else {
        assert(fewer[k] == casts[k]);
        law_traces_are_seen(fewer, k, dirs, mods, tmpdir);
        lemma_placed_all_seen(
            seen(fewer),
            found,
            used,
            last.header.timestamp,
            tmpdir,
            present(mods),
            casts[k].header.timestamp,
        );
    }
}

/// A text that is there is among those that are.
proof fn lemma_present_contains(s: Seq<Option<Seq<char>>>, text: Seq<char>)
    requires
        s.contains(Some(text)),
    ensures
        present(s).contains(text),
    decreases s.len(),
{
    let i = choose|i: int| 0 <= i < s.len() && s[i] == Some(text);
    let fewer = s.drop_last();
    if i == s.len() - 1 {
        assert(present(s)[present(s).len() - 1] == text);
    } else {
        assert(fewer[i] == Some(text));
        lemma_present_contains(fewer, text);
        let j = choose|j: int| 0 <= j < present(fewer).len() && present(fewer)[j] == text;
        assert(present(s)[j] == text);
    }
}

/// The row of a run shows the directory, when it was seen first, and its modules; nothing stands
/// for a time that is not known but a question mark.
pub proof fn law_group_row(g: GroupView, first_seen: Option<String>)
    ensures
        group_row(g, first_seen) == left_column(shortened(g.tmpdir, 39, "…"@), 40) + " "@
            + left_column(
            match first_seen {
                Some(t) => t@,
                None => "?"@,
            },
            22,
        ) + " "@ + join(g.modules, ", "@),
{
    lemma_row_of_three(
        shortened(g.tmpdir, 39, "…"@),
        40,
        text_or(first_seen, "?"@),
        22,
        join(g.modules, ", "@),
    );
}

/// What is shown of the runs has a heading and a row for each run, in order.
pub proof fn law_report(
    user: Seq<char>,
    sessions: nat,
    groups: Seq<GroupView>,
    first_seen: Seq<Option<String>>,
    i: int,
)
    requires
        sessions > 0,
        groups.len() > 0,
        0 <= i < groups.len(),
    ensures
        report(user, sessions, groups, first_seen).len() == groups.len() + 1,
        report(user, sessions, groups, first_seen)[i + 1] == group_row(groups[i], first_seen[i]),
{
}

/// A run was seen first in one of some sessions, and its modules were all seen in them.
pub open spec fn comes_from(g: GroupView, casts: Seq<Cast>) -> bool {
    &&& exists|k: int|
        0 <= k < casts.len() && (#[trigger] casts[k]).header.timestamp == g.first_ts && matched(
            "ansible-tmp-(\\d+\\.\\d+)-(\\d+)-\\d+"@,
            0,
            printed(casts[k].events@),
        ).contains(g.tmpdir)
    &&& forall|m: Seq<char>| #[trigger]
        g.modules.contains(m) ==> exists|k: int|
            0 <= k < casts.len() && matched(
                "AnsiballZ_(\\w+)\\.py"@,
                1,
                printed((#[trigger] casts[k]).events@),
            ).contains(m)
}

/// What comes from some sessions comes from more.
proof fn lemma_comes_from_more(g: GroupView, casts: Seq<Cast>, c: Cast)
    requires
        comes_from(g, casts),
    ensures
        comes_from(g, casts.push(c)),
{
    let more = casts.push(c);
    let k = choose|k: int|
        0 <= k < casts.len() && (#[trigger] casts[k]).header.timestamp == g.first_ts && matched(
            tmpdir_pattern(),
            0,
            printed(casts[k].events@),
        ).contains(g.tmpdir);
    assert(more[k] == casts[k]);
    assert forall|m: Seq<char>| #[trigger] g.modules.contains(m) implies exists|k: int|
        0 <= k < more.len() && matched(
            module_pattern(),
            1,
            printed((#[trigger] more[k]).events@),
        ).contains(m) by {
        let k = choose|k: int|
            0 <= k < casts.len() && matched(
                module_pattern(),
                1,
                printed((#[trigger] casts[k]).events@),
            ).contains(m);
        assert(more[k] == casts[k]);
    }
}

/// Entering directories that were matched in a session keeps runs to what was seen.
proof fn lemma_placed_all_from(
    groups: Seq<GroupView>,
    casts: Seq<Cast>,
    c: Cast,
    tmpdirs: Seq<Seq<char>>,
)
    requires
        casts.contains(c),
        forall|i: int| 0 <= i < groups.len() ==> comes_from(#[trigger] groups[i], casts),
        forall|j: int|
            0 <= j < tmpdirs.len() ==> matched(tmpdir_pattern(), 0, printed(c.events@)).contains(
                #[trigger] tmpdirs[j],
            ),
    ensures
        ({
            let p = placed_all(
                groups,
                tmpdirs,
                matched(module_pattern(), 1, printed(c.events@)),
                c.header.timestamp,
            );
            forall|i: int| 0 <= i < p.len() ==> comes_from(#[trigger] p[i], casts)
        }),
    decreases tmpdirs.len(),
{
    if tmpdirs.len() > 0 {
        let ts = c.header.timestamp;
        let modules = matched(module_pattern(), 1, printed(c.events@));
        let fewer = tmpdirs.drop_last();
        let tmpdir = tmpdirs.last();
        assert forall|j: int| 0 <= j < fewer.len() implies matched(
            tmpdir_pattern(),
            0,
            printed(c.events@),
        ).contains(#[trigger] fewer[j]) by {
            assert(fewer[j] == tmpdirs[j]);
        }
        lemma_placed_all_from(groups, casts, c, fewer);
        let before = placed_all(groups, fewer, modules, ts);
        let p = placed(before, tmpdir, modules, ts);
        let k = choose|k: int| 0 <= k < casts.len() && casts[k] == c;
        assert(tmpdirs[tmpdirs.len() - 1] == tmpdir);
        lemma_find_group(before, tmpdir, ts);
        assert forall|i: int| 0 <= i < p.len() implies comes_from(#[trigger] p[i], casts) by {
            match find_group(before, tmpdir, ts) {
                Some(f) => {
                    let g = before[f];
                    assert(comes_from(g, casts));
                    if i == f {
                        assert forall|m: Seq<char>| #[trigger]
                            p[i].modules.contains(m) implies exists|k: int|
                            0 <= k < casts.len() && matched(
                                module_pattern(),
                                1,
                                printed((#[trigger] casts[k]).events@),
                            ).contains(m) by {
                            let both = g.modules + modules;
                            law_dedup(both, m);
                            let j = choose|j: int| 0 <= j < both.len() && both[j] == m;
                            if j < g.modules.len() {
                                assert(g.modules[j] == m);
                                assert(g.modules.contains(m));
                            } else {
                                assert(modules[j - g.modules.len()] == m);
                                assert(matched(
                                    module_pattern(),
                                    1,
                                    printed(casts[k].events@),
                                ).contains(m));
                            }
                        }
                    } else {
                        assert(p[i] == before[i]);
                    }
                },
                None => {
                    if i < before.len() {
                        assert(p[i] == before[i]);
                    } else {
                        assert(casts[k].header.timestamp == p[i].first_ts);
                        assert forall|m: Seq<char>| #[trigger]
                            p[i].modules.contains(m) implies exists|k: int|
                            0 <= k < casts.len() && matched(
                                module_pattern(),
                                1,
                                printed((#[trigger] casts[k]).events@),
                            ).contains(m) by {
                            assert(matched(module_pattern(), 1, printed(casts[k].events@)).contains(
                                m,
                            ));
                        }
                    }
                },
            }
        }
    }
}

/// No run is shown that was not seen: its directory was matched in what a session printed that
/// began when it was seen first, and each of its modules in what some session printed.
pub proof fn law_runs_come_from_sessions(casts: Seq<Cast>, i: int)
    requires
        0 <= i < seen(casts).len(),
    ensures
        comes_from(seen(casts)[i], casts),
{
    lemma_seen_from(casts);
}

/// The same of all runs.
proof fn lemma_seen_from(casts: Seq<Cast>)
    ensures
        forall|i: int| 0 <= i < seen(casts).len() ==> comes_from(#[trigger] seen(casts)[i], casts),
    decreases casts.len(),
{
    if casts.len() > 0 {
        let fewer = casts.drop_last();
        let c = casts.last();
        let before = seen(fewer);
        lemma_seen_from(fewer);
        assert(fewer.push(c) =~= casts);
        assert forall|i: int| 0 <= i < before.len() implies comes_from(#[trigger] before[i], casts) by {
            lemma_comes_from_more(before[i], fewer, c);
        }
        let found = matched(tmpdir_pattern(), 0, printed(c.events@));
        assert(casts[casts.len() - 1] == c);
        assert forall|j: int| 0 <= j < found.len() implies found.contains(#[trigger] found[j]) by {}
        lemma_placed_all_from(before, casts, c, found);
    }
}

/// What is shown of the runs shows when each was seen first by the time of its first session,
/// shifted by less than a day: wherever that has a date, and nowhere else.
pub proof fn law_first_times(groups: Seq<GroupView>, first_seen: Seq<Option<String>>, i: int)
    requires
        first_times(groups, first_seen),
        0 <= i < groups.len(),
    ensures
        first_seen.len() == groups.len(),
        first_seen[i] is Some <==> -8_334_601_228_800 <= groups[i].first_ts <= 8_210_266_876_799,
        first_seen[i] is Some ==> exists|t: int|
            groups[i].first_ts - 86_400 < t < groups[i].first_ts + 86_400 && first_seen[i]->0@
                == #[trigger] civil_text(t, "%Y-%m-%d %H:%M:%S"@),
{
    assert(groups[i].first_ts == groups[i].first_ts);
}

/// What is shown to a user of runs that were seen has a row for each, in order, with its directory,
/// when it was seen first, and its modules.
pub proof fn law_shows_runs(
    lines: Seq<Seq<char>>,
    user: Seq<char>,
    sessions: nat,
    groups: Seq<GroupView>,
    i: int,
)
    requires
        shows_runs(lines, user, sessions, groups),
        sessions > 0,
        0 <= i < groups.len(),
    ensures
        lines.len() == groups.len() + 1,
        exists|seen: Option<String>|
            lines[i + 1] == #[trigger] group_row(groups[i], seen) && (seen is Some
                <==> -8_334_601_228_800 <= groups[i].first_ts <= 8_210_266_876_799) && (seen is Some
                ==> exists|t: int|
                groups[i].first_ts - 86_400 < t < groups[i].first_ts + 86_400 && seen->0@
                    == #[trigger] civil_text(t, "%Y-%m-%d %H:%M:%S"@)),
{
    let first_seen = choose|first_seen: Seq<Option<String>>| #[trigger]
        first_times(groups, first_seen) && lines == report(user, sessions, groups, first_seen);
    law_report(user, sessions, groups, first_seen, i);
    law_first_times(groups, first_seen, i);
    assert(lines[i + 1] == group_row(groups[i], first_seen[i]));
}

/// A session that is entered changes one run at most: the first that works in its directory and was
/// seen last less than two minutes from it. That run takes over the modules behind its own, and the
/// later of the times. Where there is no such run, one is added at the end.
pub proof fn law_placed(
    groups: Seq<GroupView>,
    tmpdir: Seq<char>,
    modules: Seq<Seq<char>>,
    ts: i64,
    i: int,
)
    ensures
        0 <= i < groups.len() && groups[i].tmpdir == tmpdir && -120 < ts - groups[i].last_ts < 120 && (
        forall|j: int|
            0 <= j < i ==> (#[trigger] groups[j]).tmpdir != tmpdir || !(-120 < ts - groups[j].last_ts
                < 120)) ==> placed(groups, tmpdir, modules, ts) == groups.update(
            i,
            GroupView {
                tmpdir,
                modules: dedup(groups[i].modules + modules),
                first_ts: groups[i].first_ts,
                last_ts: if groups[i].last_ts < ts {
                    ts
                } else {
                    groups[i].last_ts
                },
            },
        ),
        (forall|j: int|
            0 <= j < groups.len() ==> (#[trigger] groups[j]).tmpdir != tmpdir || !(-120 < ts
                - groups[j].last_ts < 120)) ==> placed(groups, tmpdir, modules, ts) == groups.push(
            GroupView { tmpdir, modules, first_ts: ts, last_ts: ts },
        ),
{
    if 0 <= i < groups.len() && belongs(groups[i], tmpdir, ts) && (forall|j: int|
        0 <= j < i ==> (#[trigger] groups[j]).tmpdir != tmpdir || !(-120 < ts - groups[j].last_ts
            < 120)) {
        lemma_group_is(groups, tmpdir, ts, i);
    }
    if forall|j: int|
        0 <= j < groups.len() ==> (#[trigger] groups[j]).tmpdir != tmpdir || !(-120 < ts
            - groups[j].last_ts < 120) {
        lemma_find_group(groups, tmpdir, ts);
        if let Some(f) = find_group(groups, tmpdir, ts) {
            assert(groups[f].tmpdir == tmpdir);
        }
    }
}

/// The first run that a session belongs to is the one that is found.
proof fn lemma_group_is(groups: Seq<GroupView>, tmpdir: Seq<char>, ts: i64, i: int)
    requires
        0 <= i < groups.len(),
        belongs(groups[i], tmpdir, ts),
        forall|j: int|
            0 <= j < i ==> (#[trigger] groups[j]).tmpdir != tmpdir || !(-120 < ts - groups[j].last_ts
                < 120),
    ensures
        find_group(groups, tmpdir, ts) == Some(i),
    decreases groups.len(),
{
    if i > 0 {
        let rest = groups.drop_first();
        assert(!belongs(groups[0], tmpdir, ts)) by {
            assert(groups[0].tmpdir != tmpdir || !(-120 < ts - groups[0].last_ts < 120));
        }
        assert forall|j: int| 0 <= j < i - 1 implies (#[trigger] rest[j]).tmpdir != tmpdir || !(-120
            < ts - rest[j].last_ts < 120) by {
            assert(rest[j] == groups[j + 1]);
        }
        assert(rest[i - 1] == groups[i]);
        lemma_group_is(rest, tmpdir, ts, i - 1);
    }
}

/// The directories of a session are entered one by one, and the sessions one by one.
pub proof fn law_seen_one_by_one(
    groups: Seq<GroupView>,
    tmpdirs: Seq<Seq<char>>,
    tmpdir: Seq<char>,
    modules: Seq<Seq<char>>,
    ts: i64,
    casts: Seq<Cast>,
    c: Cast,
)
    ensures
        placed_all(groups, Seq::empty(), modules, ts) == groups,
        placed_all(groups, tmpdirs.push(tmpdir), modules, ts) == placed(
            placed_all(groups, tmpdirs, modules, ts),
            tmpdir,
            modules,
            ts,
        ),
        seen(Seq::empty()) == Seq::<GroupView>::empty(),
        seen(casts.push(c)) == placed_all(
            seen(casts),
            matched("ansible-tmp-(\\d+\\.\\d+)-(\\d+)-\\d+"@, 0, printed(c.events@)),
            matched("AnsiballZ_(\\w+)\\.py"@, 1, printed(c.events@)),
            c.header.timestamp,
        ),
{
    assert(tmpdirs.push(tmpdir).drop_last() =~= tmpdirs);
    assert(casts.push(c).drop_last() =~= casts);
}

} // verus!
