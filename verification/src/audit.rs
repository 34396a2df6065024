//! Looking into the sessions that are kept: listing, searching, following and removing them.

use crate::cast::{is_output, shows_output, Cast, CastError, Event};
use crate::config::Config;
use crate::format::{
    cell_views, decimal, left, left_cell, left_column, lemma_row_of_two, plain, plain_cell,
    prefixed, push_left, push_u64, row, row_of, text_of_u64,
};
use crate::incoming::printed;
use crate::outside::{date_days, lossy, lossy_text, parsed_date, unicode_lowercase};
use crate::path::{
    base_name, base_name_of, extension, has_extension, join, join_path, law_base_name_of_join, stem,
    stem_of, SEPARATOR,
};
use crate::store::{
    cast_paths, find_central, holds, kept, law_old_sessions_listed, located, old_cast_files,
    old_cast_paths, old_entry, session_name, session_of, session_table, shows_sessions, user_dir,
    user_sessions, wanted, DirEntry, ListedSession, StoreError, UserDir,
};
use crate::text::{
    bare, byte_views, contains, copy_bytes, law_trim_around, law_trim_prefixes, lemma_encode_concat,
    lemma_encoding_injective, lemma_views_push, lines, lines_of, occurs_at, same_text,
    text_contains, text_or, trim, trim_prefixes, trimmed, views, without_prefixes,
};
use vstd::prelude::*;
use vstd::string::*;
use vstd::utf8::*;

verus! {

/// The lines that a session printed, one event after the other.
pub open spec fn printed_lines(events: Seq<Event>) -> Seq<Seq<char>>
    decreases events.len(),
{
    if events.len() == 0 {
        Seq::empty()
    } else if is_output(events.last()) {
        printed_lines(events.drop_last()) + lines(events.last().2@)
    } else {
        printed_lines(events.drop_last())
    }
}

/// The last `n` of some lines, or all where there are no more.
pub open spec fn last_lines(all: Seq<Seq<char>>, n: int) -> Seq<Seq<char>> {
    if all.len() <= n {
        all
    } else {
        all.skip(all.len() - n)
    }
}

/// The last `n` lines that a session printed. A session with a line that could not be read is
/// refused.
pub fn tail_static(cast: &Cast, n: usize) -> (r: Result<Vec<String>, CastError>)
    ensures
        r is Ok <==> cast.intact,
        r matches Ok(out) ==> views(out@) == last_lines(printed_lines(cast.events@), n as int),
        r matches Err(e) ==> e == CastError::Unreadable,
{
    if !cast.intact {
        return Err(CastError::Unreadable);
    }
    let mut out: Vec<String> = Vec::new();
    let mut i: usize = 0;
    assert(views(out@) =~= last_lines(printed_lines(cast.events@.take(0)), n as int));
    while i < cast.events.len()
        invariant
            i <= cast.events@.len(),
            views(out@) == last_lines(printed_lines(cast.events@.take(i as int)), n as int),
        decreases cast.events@.len() - i,
    {
        let ev = &cast.events[i];
        let ghost shorter = printed_lines(cast.events@.take(i as int));
        proof {
            assert(cast.events@.take(i + 1).drop_last() =~= cast.events@.take(i as int));
            assert(cast.events@.take(i + 1).last() == *ev);
        }
        if shows_output(ev) {
            let more = lines_of(ev.2.as_str());
            let mut j: usize = 0;
            assert(shorter + views(more@).take(0) =~= shorter);
            while j < more.len()
                invariant
                    j <= more@.len(),
                    views(out@) == last_lines(shorter + views(more@).take(j as int), n as int),
                decreases more@.len() - j,
            {
                let ghost before = out@;
                let ghost so_far = shorter + views(more@).take(j as int);
                let ghost next = shorter + views(more@).take(j + 1);
                let line = more[j].as_str().to_owned();
                out.push(line);
                proof {
                    lemma_views_push(before, line);
                    assert(next =~= so_far.push(line@));
                    assert(views(out@) =~= last_lines(so_far, n as int).push(line@));
                }
                if out.len() > n {
                    let ghost full = out@;
                    let _ = out.remove(0);
                    assert(views(out@) =~= views(full).skip(1));
                }
                assert(views(out@) =~= last_lines(next, n as int));
                j = j + 1;
            }
            assert(views(more@).take(j as int) =~= views(more@));
        }
        i = i + 1;
    }
    assert(cast.events@.take(i as int) =~= cast.events@);
    Ok(out)
}

/// What is sent to the daemon to follow the session `id`.
pub fn tail_request(id: &str) -> (r: String)
    ensures
        r@ == "TAIL "@ + id@ + "\n"@,
{
    let mut out = prefixed("TAIL ", id);
    out.append("\n");
    out
}

/// What the daemon says where it refuses to show a session, given the first bytes of its reply.
pub open spec fn refusal(reply: Seq<u8>) -> Option<Seq<char>> {
    if encode_utf8("ERR "@).is_prefix_of(reply) {
        Some(trim_prefixes(trim(lossy(reply)), "ERR "@))
    } else {
        None
    }
}

/// Whether `bytes` begins with `prefix`.
fn begins_with(bytes: &[u8], prefix: &[u8]) -> (r: bool)
    ensures
        r == prefix@.is_prefix_of(bytes@),
{
    if prefix.len() > bytes.len() {
        return false;
    }
    let head = vstd::slice::slice_subrange(bytes, 0, prefix.len());
    proof {
        assert(head@ =~= bytes@.take(prefix@.len() as int));
        assert(prefix@.is_prefix_of(bytes@) <==> head@ =~= prefix@);
    }
    crate::text::same_bytes(head, prefix)
}

/// Why the daemon does not show a session, given the first bytes of its reply; nothing where they
/// are of the session.
pub fn tail_live(reply: &[u8]) -> (r: Option<String>)
    ensures
        crate::text::view_opt(r) == refusal(reply@),
{
    if !begins_with(reply, "ERR ".as_bytes()) {
        return None;
    }
    let text = lossy_text(reply);
    Some(without_prefixes(trimmed(text.as_str()).as_str(), "ERR "))
}

/// What is searched for, and where.
#[derive(Debug)]
pub struct Query {
    /// As it was given.
    pub pattern: String,
    /// Whether upper and lower case are the same.
    pub insensitive: bool,
    /// The earliest beginning, in seconds since the epoch.
    pub from: Option<i64>,
    /// The latest beginning.
    pub to: Option<i64>,
}

/// A text as it is compared.
pub open spec fn folded(s: Seq<char>, insensitive: bool) -> Seq<char> {
    if insensitive {
        unicode_lowercase(s)
    } else {
        s
    }
}

/// A text as it is compared.
fn fold(s: &str, insensitive: bool) -> (r: String)
    ensures
        r@ == folded(s@, insensitive),
{
    if insensitive {
        s.to_lowercase()
    } else {
        s.to_owned()
    }
}

impl Query {
    /// `s` holds what is searched for.
    pub open spec fn hits(&self, s: Seq<char>) -> bool {
        contains(folded(s, self.insensitive), folded(self.pattern@, self.insensitive))
    }

    /// A session that began at `timestamp` is looked at.
    pub open spec fn covers(&self, timestamp: i64) -> bool {
        &&& self.from is Some ==> timestamp >= self.from->0
        &&& self.to is Some ==> timestamp <= self.to->0
    }

    /// Whether `s` holds what is searched for, which is `needle` as it is compared.
    fn found_in(&self, needle: &str, s: &str) -> (r: bool)
        requires
            needle@ == folded(self.pattern@, self.insensitive),
        ensures
            r == self.hits(s@),
    {
        text_contains(fold(s, self.insensitive).as_str(), needle)
    }

    /// Whether a session that began at `timestamp` is looked at.
    fn looks_at(&self, timestamp: i64) -> (r: bool)
        ensures
            r == self.covers(timestamp),
    {
        if let Some(from) = self.from {
            if timestamp < from {
                return false;
            }
        }
        if let Some(to) = self.to {
            if timestamp > to {
                return false;
            }
        }
        true
    }
}

/// The most lines of a session that are shown.
pub const MAX_SNIPPETS: usize = 5;

/// The lines of `all` that hold what is searched for.
pub open spec fn hit_lines(q: Query, all: Seq<Seq<char>>) -> Seq<Seq<char>>
    decreases all.len(),
{
    if all.len() == 0 {
        Seq::empty()
    } else if q.hits(all.last()) {
        hit_lines(q, all.drop_last()).push(all.last())
    } else {
        hit_lines(q, all.drop_last())
    }
}

/// An event prints what is searched for.
pub open spec fn event_hits(q: Query, ev: Event) -> bool {
    is_output(ev) && q.hits(ev.2@)
}

/// Some event prints what is searched for.
pub open spec fn output_hits(q: Query, events: Seq<Event>) -> bool {
    exists|i: int| 0 <= i < events.len() && event_hits(q, #[trigger] events[i])
}

/// The lines that hold what is searched for, in the events that print it.
pub open spec fn session_lines(q: Query, events: Seq<Event>) -> Seq<Seq<char>>
    decreases events.len(),
{
    if events.len() == 0 {
        Seq::empty()
    } else if event_hits(q, events.last()) {
        session_lines(q, events.drop_last()) + hit_lines(q, lines(events.last().2@))
    } else {
        session_lines(q, events.drop_last())
    }
}

/// The first `n` of some lines, or all where there are no more.
pub open spec fn first_lines(all: Seq<Seq<char>>, n: int) -> Seq<Seq<char>> {
    if all.len() <= n {
        all
    } else {
        all.take(n)
    }
}

/// Each line on a line of its own, with a mark before it.
pub open spec fn marked(all: Seq<Seq<char>>) -> Seq<char>
    decreases all.len(),
{
    if all.len() == 0 {
        Seq::empty()
    } else {
        marked(all.drop_last()) + "\n"@ + "  > "@ + all.last()
    }
}

/// What is shown of a session in which something was found: whose it is, its file and its command,
/// then the first lines that hold what is searched for.
pub open spec fn find_text(
    q: Query,
    user: Seq<char>,
    path: Seq<u8>,
    cast: Cast,
) -> Seq<char> {
    user + "/"@ + lossy(base_name(path)) + "  "@ + cast.header.command@ + marked(
        first_lines(session_lines(q, cast.events@), MAX_SNIPPETS as int),
    )
}

/// What is shown of a session: nothing where a line of it could not be read, where it began too
/// early or too late, or where neither its command nor what it printed holds what is searched for.
pub open spec fn finds(q: Query, user: Seq<char>, path: Seq<u8>, cast: Cast) -> Option<Seq<char>> {
    if cast.intact && q.covers(cast.header.timestamp) && (q.hits(cast.header.command@)
        || output_hits(q, cast.events@)) {
        Some(find_text(q, user, path, cast))
    } else {
        None
    }
}

/// Adds the lines of `text` that hold what is searched for, as long as there are not too many.
fn push_hits(out: &mut Vec<String>, q: &Query, needle: &str, text: &str, Ghost(all): Ghost<
    Seq<Seq<char>>,
>)
    requires
        needle@ == folded(q.pattern@, q.insensitive),
        views(old(out)@) == first_lines(all, MAX_SNIPPETS as int),
    ensures
        views(final(out)@) == first_lines(
            all + hit_lines(*q, lines(text@)),
            MAX_SNIPPETS as int,
        ),
{
    let list = lines_of(text);
    let mut i: usize = 0;
    assert(all + hit_lines(*q, views(list@).take(0)) =~= all);
    while i < list.len()
        invariant
            i <= list@.len(),
            needle@ == folded(q.pattern@, q.insensitive),
            views(out@) == first_lines(
                all + hit_lines(*q, views(list@).take(i as int)),
                MAX_SNIPPETS as int,
            ),
        decreases list@.len() - i,
    {
        let ghost before = out@;
        let ghost so_far = all + hit_lines(*q, views(list@).take(i as int));
        let ghost next = all + hit_lines(*q, views(list@).take(i + 1));
        let line = list[i].as_str();
        proof {
            assert(views(list@).take(i + 1).drop_last() =~= views(list@).take(i as int));
            assert(views(list@).take(i + 1).last() == line@);
            assert(q.hits(line@) ==> next =~= so_far.push(line@));
        }
        if q.found_in(needle, line) && out.len() < MAX_SNIPPETS {
            let text = line.to_owned();
            out.push(text);
            proof {
                lemma_views_push(before, text);
            }
        }
        assert(views(out@) =~= first_lines(next, MAX_SNIPPETS as int));
        i = i + 1;
    }
    assert(views(list@).take(i as int) =~= views(list@));
}

/// What is shown of a session in a search.
pub fn scan_session(q: &Query, user: &str, path: &[u8], cast: &Cast) -> (r: Option<String>)
    ensures
        crate::text::view_opt(r) == finds(*q, user@, path@, *cast),
{
    if !cast.intact || !q.looks_at(cast.header.timestamp) {
        return None;
    }
    let needle = fold(q.pattern.as_str(), q.insensitive);
    let command_hits = q.found_in(needle.as_str(), cast.header.command.as_str());
    let mut snippets: Vec<String> = Vec::new();
    let mut printed = false;
    let mut i: usize = 0;
    assert(views(snippets@) =~= first_lines(
        session_lines(*q, cast.events@.take(0)),
        MAX_SNIPPETS as int,
    ));
    while i < cast.events.len()
        invariant
            i <= cast.events@.len(),
            needle@ == folded(q.pattern@, q.insensitive),
            printed == output_hits(*q, cast.events@.take(i as int)),
            views(snippets@) == first_lines(
                session_lines(*q, cast.events@.take(i as int)),
                MAX_SNIPPETS as int,
            ),
        decreases cast.events@.len() - i,
    {
        let ev = &cast.events[i];
        let ghost some = cast.events@.take(i as int);
        let ghost more = cast.events@.take(i + 1);
        proof {
            assert(more.drop_last() =~= some);
            assert(more.last() == *ev);
        }
        let hit = shows_output(ev) && q.found_in(needle.as_str(), ev.2.as_str());
        proof {
            assert(hit == event_hits(*q, *ev));
            if hit {
                assert(event_hits(*q, more[i as int]));
            }
            if output_hits(*q, some) {
                let k = choose|k: int| 0 <= k < some.len() && event_hits(*q, #[trigger] some[k]);
                assert(event_hits(*q, more[k]));
            }
            if output_hits(*q, more) && !hit {
                let k = choose|k: int| 0 <= k < more.len() && event_hits(*q, #[trigger] more[k]);
                assert(event_hits(*q, some[k]));
            }
        }
        if hit {
            printed = true;
            push_hits(
                &mut snippets,
                q,
                needle.as_str(),
                ev.2.as_str(),
                Ghost(session_lines(*q, some)),
            );
        }
        i = i + 1;
    }
    assert(cast.events@.take(i as int) =~= cast.events@);
    if !command_hits && !printed {
        return None;
    }
    let mut out = user.to_owned();
    out.append("/");
    out.append(lossy_text(base_name_of(path).as_slice()).as_str());
    out.append("  ");
    out.append(cast.header.command.as_str());
    let ghost head = out@;
    let mut j: usize = 0;
    assert(out@ =~= head + marked(views(snippets@).take(0)));
    while j < snippets.len()
        invariant
            j <= snippets@.len(),
            out@ == head + marked(views(snippets@).take(j as int)),
        decreases snippets@.len() - j,
    {
        out.append("\n");
        out.append("  > ");
        out.append(snippets[j].as_str());
        proof {
            let longer = views(snippets@).take(j + 1);
            assert(longer.drop_last() =~= views(snippets@).take(j as int));
            assert(longer.last() == snippets@[j as int]@);
            assert(out@ =~= head + marked(longer));
        }
        j = j + 1;
    }
    assert(views(snippets@).take(j as int) =~= views(snippets@));
    Some(out)
}

/// A session that is searched: whose it is, where, and what it holds, where it could be read.
#[derive(Debug)]
pub struct Candidate {
    pub user: String,
    pub path: Vec<u8>,
    pub cast: Option<Cast>,
}

/// What a search shows of one session.
pub open spec fn candidate_text(q: Query, c: Candidate) -> Option<Seq<char>> {
    match c.cast {
        Some(cast) => finds(q, c.user@, c.path@, cast),
        None => None,
    }
}

/// What a search shows, in the order of the sessions.
pub open spec fn search_texts(q: Query, list: Seq<Candidate>) -> Seq<Seq<char>>
    decreases list.len(),
{
    if list.len() == 0 {
        Seq::empty()
    } else {
        let before = search_texts(q, list.drop_last());
        match candidate_text(q, list.last()) {
            Some(text) => before.push(text),
            None => before,
        }
    }
}

/// What a search shows, in the order of the sessions. Sessions that cannot be read are passed
/// over.
pub fn search(q: &Query, list: &Vec<Candidate>) -> (r: Vec<String>)
    ensures
        views(r@) == search_texts(*q, list@),
{
    let mut out: Vec<String> = Vec::new();
    let mut i: usize = 0;
    assert(views(out@) =~= search_texts(*q, list@.take(0)));
    while i < list.len()
        invariant
            i <= list@.len(),
            views(out@) == search_texts(*q, list@.take(i as int)),
        decreases list@.len() - i,
    {
        let ghost before = out@;
        let c = &list[i];
        proof {
            assert(list@.take(i + 1).drop_last() =~= list@.take(i as int));
            assert(list@.take(i + 1).last() == *c);
        }
        if let Some(cast) = &c.cast {
            if let Some(text) = scan_session(q, c.user.as_str(), c.path.as_slice(), cast) {
                proof {
                    lemma_views_push(before, text);
                }
                out.push(text);
            }
        }
        i = i + 1;
    }
    assert(list@.take(i as int) =~= list@);
    out
}

/// The sessions can be searched in parts, each by itself, and the parts put together again.
pub proof fn law_search_splits(q: Query, first: Seq<Candidate>, rest: Seq<Candidate>)
    ensures
        search_texts(q, first + rest) == search_texts(q, first) + search_texts(q, rest),
    decreases rest.len(),
{
    if rest.len() == 0 {
        assert(first + rest =~= first);
        assert(search_texts(q, first) + search_texts(q, rest) =~= search_texts(q, first));
    } else {
        law_search_splits(q, first, rest.drop_last());
        assert((first + rest).drop_last() =~= first + rest.drop_last());
        assert((first + rest).last() == rest.last());
        assert(search_texts(q, first + rest) =~= search_texts(q, first) + search_texts(q, rest));
    }
}

/// Every line that `hit_lines` gives holds what is searched for.
proof fn lemma_hit_lines(q: Query, all: Seq<Seq<char>>)
    ensures
        forall|i: int|
            0 <= i < hit_lines(q, all).len() ==> q.hits(#[trigger] hit_lines(q, all)[i]),
    decreases all.len(),
{
    if all.len() > 0 {
        let before = hit_lines(q, all.drop_last());
        lemma_hit_lines(q, all.drop_last());
        assert forall|i: int| 0 <= i < hit_lines(q, all).len() implies q.hits(
            #[trigger] hit_lines(q, all)[i],
        ) by {
            if i < before.len() {
                assert(hit_lines(q, all)[i] == before[i]);
            }
        }
    }
}

/// Every line that a search shows of a session holds what is searched for.
pub proof fn law_shown_lines_hit(q: Query, events: Seq<Event>)
    ensures
        forall|i: int|
            0 <= i < session_lines(q, events).len() ==> q.hits(
                #[trigger] session_lines(q, events)[i],
            ),
    decreases events.len(),
{
    if events.len() > 0 {
        law_shown_lines_hit(q, events.drop_last());
        let before = session_lines(q, events.drop_last());
        let more = hit_lines(q, lines(events.last().2@));
        lemma_hit_lines(q, lines(events.last().2@));
        assert forall|i: int| 0 <= i < session_lines(q, events).len() implies q.hits(
            #[trigger] session_lines(q, events)[i],
        ) by {
            if i < before.len() {
                assert(session_lines(q, events)[i] == before[i]);
            } else {
                assert(session_lines(q, events)[i] == more[i - before.len()]);
            }
        }
    }
}

/// How many directories can be read before the first one that cannot.
pub open spec fn readable(dirs: Seq<UserDir>) -> int
    decreases dirs.len(),
{
    if dirs.len() == 0 || dirs[0].entries is None {
        0
    } else {
        1 + readable(dirs.drop_first())
    }
}

/// How many directories can be read before the first one that cannot.
pub fn readable_dirs(dirs: &Vec<UserDir>) -> (r: usize)
    ensures
        r == readable(dirs@),
        r <= dirs@.len(),
        forall|i: int| 0 <= i < r ==> (#[trigger] dirs@[i]).entries is Some,
        r < dirs@.len() ==> dirs@[r as int].entries is None,
{
    let mut i: usize = 0;
    assert(dirs@.skip(0) =~= dirs@);
    while i < dirs.len() && dirs[i].entries.is_some()
        invariant
            i <= dirs@.len(),
            readable(dirs@) == i + readable(dirs@.skip(i as int)),
            forall|j: int| 0 <= j < i ==> (#[trigger] dirs@[j]).entries is Some,
        decreases dirs@.len() - i,
    {
        assert(dirs@.skip(i as int).drop_first() =~= dirs@.skip(i + 1));
        i = i + 1;
    }
    assert(i < dirs@.len() ==> dirs@.skip(i as int)[0] == dirs@[i as int]);
    i
}

/// The sessions that are kept in a directory of the central store.
pub open spec fn dir_sessions(central: Seq<u8>, dir: UserDir) -> Seq<Seq<u8>> {
    match dir.entries {
        Some(entries) => kept(central, dir.user@, entries@),
        None => Seq::empty(),
    }
}

/// The sessions that are kept in a directory of the central store.
fn sessions_in(cfg: &Config, dir: &UserDir) -> (r: Vec<Vec<u8>>)
    ensures
        byte_views(r@) == dir_sessions(cfg@.central_dir, *dir),
{
    match &dir.entries {
        Some(entries) => user_sessions(cfg, dir.user.as_str(), entries),
        None => {
            let none: Vec<Vec<u8>> = Vec::new();
            assert(byte_views(none@) =~= Seq::<Seq<u8>>::empty());
            none
        },
    }
}

/// The row of a user.
pub open spec fn user_row(central: Seq<u8>, dir: UserDir) -> Seq<char> {
    row(seq![left(dir.user@, 20), plain(decimal(dir_sessions(central, dir).len()))])
}

/// How many sessions each user has: a line that heads the columns, then a row for each user, up to
/// the first whose directory cannot be read.
pub fn ls_all(cfg: &Config, dirs: &Vec<UserDir>) -> (r: Vec<String>)
    ensures
        views(r@) == seq!["USER                 SESSIONS"@] + Seq::new(
            readable(dirs@) as nat,
            |i: int| user_row(cfg@.central_dir, dirs@[i]),
        ),
{
    let n = readable_dirs(dirs);
    let mut out: Vec<String> = Vec::new();
    out.push("USER                 SESSIONS".to_owned());
    let ghost head = seq!["USER                 SESSIONS"@];
    let mut i: usize = 0;
    assert(views(out@) =~= head + Seq::new(0, |k: int| user_row(cfg@.central_dir, dirs@[k])));
    while i < n
        invariant
            i <= n <= dirs@.len(),
            views(out@) == head + Seq::new(
                i as nat,
                |k: int| user_row(cfg@.central_dir, dirs@[k]),
            ),
        decreases n - i,
    {
        let ghost before = out@;
        let dir = &dirs[i];
        let sessions = sessions_in(cfg, dir);
        let count = text_of_u64(sessions.len() as u64);
        let cells = vec![left_cell(dir.user.as_str(), 20), plain_cell(count.as_str())];
        assert(cell_views(cells@) =~= seq![left(dir.user@, 20), plain(count@)]);
        let line = row_of(&cells);
        proof {
            assert(sessions@.len() == byte_views(sessions@).len());
            assert(line@ == user_row(cfg@.central_dir, dirs@[i as int]));
            lemma_views_push(before, line);
            assert(views(before).push(line@) =~= head + Seq::new(
                (i + 1) as nat,
                |k: int| user_row(cfg@.central_dir, dirs@[k]),
            ));
        }
        out.push(line);
        i = i + 1;
    }
    out
}

/// What is shown of the sessions of one user.
pub fn ls_user(sessions: &Vec<ListedSession>) -> (r: Vec<String>)
    ensures
        shows_sessions(
            views(r@),
            "STATUS   SESSION                       STARTED              DURATION   COMMAND"@,
            sessions@,
        ),
{
    session_table(
        "STATUS   SESSION                       STARTED              DURATION   COMMAND",
        sessions,
    )
}

/// How a branch of the tree begins: the last one turns, the others go on.
pub open spec fn branch(last: bool) -> Seq<char> {
    if last {
        "└─"@
    } else {
        "├─"@
    }
}

/// What stands before the branches of a branch.
pub open spec fn indent(last: bool) -> Seq<char> {
    if last {
        "   "@
    } else {
        "│  "@
    }
}

/// The line of a user in the tree.
pub open spec fn user_line(user: Seq<char>, sessions: nat, last: bool) -> Seq<char> {
    branch(last) + " "@ + left_column(user, 20) + "  ("@ + decimal(sessions) + " sessions)"@
}

/// The line of a session in the tree.
pub open spec fn session_line(path: Seq<u8>, last_user: bool, last: bool) -> Seq<char> {
    indent(last_user) + branch(last) + " "@ + session_of(path)
}

/// The lines of a user in the tree, and of their sessions.
pub open spec fn user_tree(central: Seq<u8>, dir: UserDir, last: bool) -> Seq<Seq<char>> {
    let sessions = dir_sessions(central, dir);
    seq![user_line(dir.user@, sessions.len(), last)] + Seq::new(
        sessions.len(),
        |i: int| session_line(sessions[i], last, i + 1 == sessions.len()),
    )
}

/// The lines of the first `n` users in the tree.
pub open spec fn tree_lines(central: Seq<u8>, dirs: Seq<UserDir>, n: int) -> Seq<Seq<char>>
    decreases n,
{
    if n <= 0 {
        seq![lossy(central)]
    } else {
        tree_lines(central, dirs, n - 1) + user_tree(central, dirs[n - 1], n == dirs.len())
    }
}

/// Appends the lines of a user in the tree, and of their sessions.
fn push_user_tree(out: &mut Vec<String>, cfg: &Config, dir: &UserDir, last: bool)
    ensures
        views(final(out)@) == views(old(out)@) + user_tree(cfg@.central_dir, *dir, last),
{
    let sessions = sessions_in(cfg, dir);
    let ghost paths = byte_views(sessions@);
    let ghost all = user_tree(cfg@.central_dir, *dir, last);
    let start: &str = if last {
        "└─"
    } else {
        "├─"
    };
    let before: &str = if last {
        "   "
    } else {
        "│  "
    };
    let mut line = start.to_owned();
    line.append(" ");
    push_left(&mut line, dir.user.as_str(), 20);
    line.append("  (");
    push_u64(&mut line, sessions.len() as u64);
    line.append(" sessions)");
    proof {
        assert(paths.len() == sessions@.len());
        assert(line@ == all[0]);
        lemma_views_push(out@, line);
    }
    out.push(line);
    assert(views(out@) =~= views(old(out)@) + all.take(1));
    let mut i: usize = 0;
    while i < sessions.len()
        invariant
            i <= sessions@.len(),
            before@ == indent(last),
            paths == byte_views(sessions@),
            paths == dir_sessions(cfg@.central_dir, *dir),
            all == user_tree(cfg@.central_dir, *dir, last),
            views(out@) == views(old(out)@) + all.take(i + 1),
        decreases sessions@.len() - i,
    {
        let ghost so_far = out@;
        let turn: &str = if i + 1 == sessions.len() {
            "└─"
        } else {
            "├─"
        };
        let mut line = prefixed(before, turn);
        line.append(" ");
        line.append(session_name(sessions[i].as_slice()).as_str());
        proof {
            assert(paths[i as int] == sessions@[i as int]@);
            assert(all[i + 1] == line@);
            lemma_views_push(so_far, line);
            assert(views(so_far).push(line@) =~= views(old(out)@) + all.take(i + 2));
        }
        out.push(line);
        i = i + 1;
    }
    assert(all.take(i + 1) =~= all);
}

/// The users and their sessions as a tree, up to the first user whose directory cannot be read.
pub fn tree(cfg: &Config, dirs: &Vec<UserDir>) -> (r: Vec<String>)
    ensures
        views(r@) == tree_lines(cfg@.central_dir, dirs@, readable(dirs@)),
{
    let n = readable_dirs(dirs);
    let mut out: Vec<String> = Vec::new();
    out.push(lossy_text(cfg.central_dir.as_slice()));
    let mut i: usize = 0;
    assert(views(out@) =~= tree_lines(cfg@.central_dir, dirs@, 0));
    while i < n
        invariant
            i <= n <= dirs@.len(),
            views(out@) == tree_lines(cfg@.central_dir, dirs@, i as int),
        decreases n - i,
    {
        push_user_tree(&mut out, cfg, &dirs[i], i + 1 == dirs.len());
        i = i + 1;
    }
    out
}

/// The sessions of the first `n` users, in order.
pub open spec fn all_sessions(central: Seq<u8>, dirs: Seq<UserDir>, n: int) -> Seq<Seq<u8>>
    decreases n,
{
    if n <= 0 {
        Seq::empty()
    } else {
        all_sessions(central, dirs, n - 1) + dir_sessions(central, dirs[n - 1])
    }
}

/// How long a session is kept at least, in seconds, where nothing else is asked for: thirty days.
pub const PRUNE_AGE: i64 = 2_592_000;

/// The time before which a session is old, if it is old at `PRUNE_AGE`.
pub open spec fn cutoff(now: i64) -> int {
    if now < i64::MIN + PRUNE_AGE {
        i64::MIN as int
    } else {
        now - PRUNE_AGE
    }
}

/// The time before which a session is old, if it is old at `PRUNE_AGE`.
pub fn prune_cutoff(now: i64) -> (r: i64)
    ensures
        r == cutoff(now),
{
    if now < i64::MIN + PRUNE_AGE {
        i64::MIN
    } else {
        now - PRUNE_AGE
    }
}

/// The sessions in a directory of the central store that were written last before a time.
pub open spec fn dir_old_sessions(central: Seq<u8>, dir: UserDir, before: i64) -> Seq<Seq<u8>> {
    match dir.entries {
        Some(entries) => old_cast_paths(user_dir(central, dir.user@), entries@, before),
        None => Seq::empty(),
    }
}

/// The old sessions of the first `n` users, in order.
pub open spec fn old_sessions(
    central: Seq<u8>,
    dirs: Seq<UserDir>,
    before: i64,
    n: int,
) -> Seq<Seq<u8>>
    decreases n,
{
    if n <= 0 {
        Seq::empty()
    } else {
        old_sessions(central, dirs, before, n - 1) + dir_old_sessions(central, dirs[n - 1], before)
    }
}

/// The sessions that pruning removes, in order: those of every user that were written last before
/// a time, up to the first user whose directory cannot be read.
pub fn prune(cfg: &Config, dirs: &Vec<UserDir>, before: i64) -> (r: Vec<Vec<u8>>)
    ensures
        byte_views(r@) == old_sessions(cfg@.central_dir, dirs@, before, readable(dirs@)),
{
    let n = readable_dirs(dirs);
    let mut out: Vec<Vec<u8>> = Vec::new();
    let mut i: usize = 0;
    assert(byte_views(out@) =~= old_sessions(cfg@.central_dir, dirs@, before, 0));
    while i < n
        invariant
            i <= n <= dirs@.len(),
            byte_views(out@) == old_sessions(cfg@.central_dir, dirs@, before, i as int),
        decreases n - i,
    {
        let ghost so_far = out@;
        if let Some(entries) = &dirs[i].entries {
            let dir = join_path(cfg.central_dir.as_slice(), dirs[i].user.as_str().as_bytes());
            let mut more = old_cast_files(dir.as_slice(), entries, before);
            let ghost added = more@;
            out.append(&mut more);
            assert(byte_views(out@) =~= byte_views(so_far) + byte_views(added));
        } else {
            assert(byte_views(out@) =~= byte_views(so_far) + Seq::<Seq<u8>>::empty());
        }
        i = i + 1;
    }
    out
}

/// What is asked before `total` sessions are removed.
pub fn prune_question(total: usize) -> (r: String)
    ensures
        r@ == "about to delete "@ + decimal(total as nat) + " session(s). type 'yes' to confirm: "@,
{
    let mut out = "about to delete ".to_owned();
    push_u64(&mut out, total as u64);
    out.append(" session(s). type 'yes' to confirm: ");
    out
}

/// Whether the answer to the question is yes.
pub fn prune_confirmed(answer: &str) -> (r: bool)
    ensures
        r == (trim(answer@) == "yes"@),
{
    same_text(trimmed(answer).as_str(), "yes")
}

/// Directory `k` was read, and holds the session at `path`, which was written last before a time.
pub open spec fn holds_old(
    central: Seq<u8>,
    dirs: Seq<UserDir>,
    before: i64,
    k: int,
    path: Seq<u8>,
) -> bool {
    &&& 0 <= k < dirs.len()
    &&& dirs[k].entries is Some
    &&& exists|i: int|
        0 <= i < dirs[k].entries->0@.len() && old_entry(
            #[trigger] dirs[k].entries->0@[i],
            before,
        ) && join(user_dir(central, dirs[k].user@), dirs[k].entries->0@[i].name@) == path
}

/// Pruning removes exactly the sessions that are old, in the directories that it gets to.
pub proof fn law_prune_removes_old(
    central: Seq<u8>,
    dirs: Seq<UserDir>,
    before: i64,
    n: int,
    path: Seq<u8>,
)
    requires
        0 <= n <= dirs.len(),
    ensures
        old_sessions(central, dirs, before, n).contains(path) <==> exists|k: int|
            k < n && #[trigger] holds_old(central, dirs, before, k, path),
    decreases n,
{
    if n > 0 {
        law_prune_removes_old(central, dirs, before, n - 1, path);
        let first = old_sessions(central, dirs, before, n - 1);
        let more = dir_old_sessions(central, dirs[n - 1], before);
        let all = old_sessions(central, dirs, before, n);
        if let Some(entries) = dirs[n - 1].entries {
            law_old_sessions_listed(user_dir(central, dirs[n - 1].user@), entries@, before, path);
        }
        assert(more.contains(path) <==> holds_old(central, dirs, before, n - 1, path));
        if all.contains(path) {
            let i = choose|i: int| 0 <= i < all.len() && all[i] == path;
            if i < first.len() {
                assert(first[i] == path);
            } else {
                assert(more[i - first.len()] == path);
            }
        }
        if exists|k: int| k < n && #[trigger] holds_old(central, dirs, before, k, path) {
            let k = choose|k: int| k < n && #[trigger] holds_old(central, dirs, before, k, path);
            if k == n - 1 {
                let i = choose|i: int| 0 <= i < more.len() && more[i] == path;
                assert(all[i + first.len()] == path);
            } else {
                assert(first.contains(path));
                let i = choose|i: int| 0 <= i < first.len() && first[i] == path;
                assert(all[i] == path);
            }
        }
    }
}

/// A name that a directory can hold: it is not empty, and no separator is in it.
pub open spec fn plain_name(name: Seq<u8>) -> bool {
    name.len() > 0 && forall|i: int| 0 <= i < name.len() ==> name[i] != SEPARATOR
}

/// The entries of a directory have names that it can hold, and no two have the same.
pub open spec fn tidy_entries(entries: Seq<DirEntry>) -> bool {
    &&& forall|i: int| 0 <= i < entries.len() ==> plain_name((#[trigger] entries[i]).name@)
    &&& forall|i: int, j: int|
        0 <= i < j < entries.len() ==> (#[trigger] entries[i]).name@ != (
        #[trigger] entries[j]).name@
}

/// A central store as a file system holds it: users have names that a directory can hold, no two
/// the same, and so have the entries of each directory.
pub open spec fn tidy(dirs: Seq<UserDir>) -> bool {
    &&& forall|k: int|
        0 <= k < dirs.len() ==> plain_name(encode_utf8((#[trigger] dirs[k]).user@))
    &&& forall|k: int|
        0 <= k < dirs.len() && (#[trigger] dirs[k]).entries is Some ==> tidy_entries(
            dirs[k].entries->0@,
        )
    &&& forall|k: int, l: int|
        0 <= k < l < dirs.len() ==> (#[trigger] dirs[k]).user@ != (#[trigger] dirs[l]).user@
}

/// A path that is made of a directory and a name is made of no other.
proof fn lemma_join_apart(d: Seq<u8>, a: Seq<u8>, e: Seq<u8>, b: Seq<u8>)
    requires
        d.len() > 0,
        e.len() > 0,
        plain_name(a),
        plain_name(b),
        join(d, a) == join(e, b),
    ensures
        a == b,
        join(d, a).last() != SEPARATOR,
        d.last() != SEPARATOR && e.last() != SEPARATOR ==> d == e,
{
    law_base_name_of_join(d, a);
    law_base_name_of_join(e, b);
    let p = join(d, a);
    assert(p.last() == a.last());
    if d.last() != SEPARATOR && e.last() != SEPARATOR {
        assert(d =~= p.take(p.len() - a.len() - 1));
        assert(e =~= p.take(p.len() - b.len() - 1));
    }
}

/// Pruning does not touch a session that is not old, wherever it stands.
pub proof fn law_prune_keeps_new(
    central: Seq<u8>,
    dirs: Seq<UserDir>,
    before: i64,
    n: int,
    k: int,
    i: int,
)
    requires
        central.len() > 0,
        tidy(dirs),
        0 <= n <= dirs.len(),
        0 <= k < dirs.len(),
        dirs[k].entries is Some,
        0 <= i < dirs[k].entries->0@.len(),
        dirs[k].entries->0@[i].modified >= before,
    ensures
        !old_sessions(central, dirs, before, n).contains(
            join(user_dir(central, dirs[k].user@), dirs[k].entries->0@[i].name@),
        ),
{
    let entries = dirs[k].entries->0@;
    let dir = user_dir(central, dirs[k].user@);
    let path = join(dir, entries[i].name@);
    law_prune_removes_old(central, dirs, before, n, path);
    if old_sessions(central, dirs, before, n).contains(path) {
        let l = choose|l: int| l < n && #[trigger] holds_old(central, dirs, before, l, path);
        let others = dirs[l].entries->0@;
        let other = user_dir(central, dirs[l].user@);
        let j = choose|j: int|
            0 <= j < dirs[l].entries->0@.len() && old_entry(
                #[trigger] dirs[l].entries->0@[j],
                before,
            ) && join(user_dir(central, dirs[l].user@), dirs[l].entries->0@[j].name@) == path;
        let (u, v) = (encode_utf8(dirs[k].user@), encode_utf8(dirs[l].user@));
        assert(plain_name(u) && plain_name(v));
        assert(tidy_entries(entries) && tidy_entries(others));
        assert(plain_name(entries[i].name@) && plain_name(others[j].name@));
        assert(dir.last() == u.last());
        assert(other.last() == v.last());
        lemma_join_apart(dir, entries[i].name@, other, others[j].name@);
        lemma_join_apart(central, u, central, v);
        lemma_encoding_injective(dirs[k].user@, dirs[l].user@);
        assert(k == l);
        assert(i == j);
    }
}

/// Where every directory can be read, `readable` counts them all.
pub proof fn law_all_readable(dirs: Seq<UserDir>)
    requires
        forall|i: int| 0 <= i < dirs.len() ==> (#[trigger] dirs[i]).entries is Some,
    ensures
        readable(dirs) == dirs.len(),
    decreases dirs.len(),
{
    if dirs.len() > 0 {
        let rest = dirs.drop_first();
        assert forall|i: int| 0 <= i < rest.len() implies (#[trigger] rest[i]).entries is Some by {
            assert(rest[i] == dirs[i + 1]);
        }
        law_all_readable(rest);
    }
}

/// A user whose sessions are searched.
pub open spec fn searched(dir: UserDir, user: Option<String>) -> bool {
    user is Some ==> user->0@ == dir.user@
}

/// The sessions to search in the first `n` directories, with their users, or the number of the
/// first directory that has to be searched and cannot be read.
pub open spec fn to_search(
    central: Seq<u8>,
    dirs: Seq<UserDir>,
    user: Option<String>,
    n: int,
) -> Result<Seq<(Seq<char>, Seq<u8>)>, usize>
    decreases n,
{
    if n <= 0 {
        Ok(Seq::empty())
    } else {
        match to_search(central, dirs, user, n - 1) {
            Err(k) => Err(k),
            Ok(before) => if !searched(dirs[n - 1], user) {
                Ok(before)
            } else if dirs[n - 1].entries is None {
                Err((n - 1) as usize)
            } else {
                Ok(
                    before + dir_sessions(central, dirs[n - 1]).map_values(
                        |path: Seq<u8>| (dirs[n - 1].user@, path),
                    ),
                )
            },
        }
    }
}

/// Users and paths.
pub open spec fn job_views(jobs: Seq<(String, Vec<u8>)>) -> Seq<(Seq<char>, Seq<u8>)> {
    Seq::new(jobs.len(), |i: int| (jobs[i].0@, jobs[i].1@))
}

/// Once a directory was in the way, it stays so.
proof fn lemma_to_search_err(
    central: Seq<u8>,
    dirs: Seq<UserDir>,
    user: Option<String>,
    m: int,
    n: int,
)
    requires
        m <= n,
        to_search(central, dirs, user, m) is Err,
    ensures
        to_search(central, dirs, user, n) == to_search(central, dirs, user, m),
    decreases n - m,
{
    if m < n {
        lemma_to_search_err(central, dirs, user, m, n - 1);
    }
}

/// The sessions to search, of one user or of all, with their users. It fails with the number of
/// the first directory that has to be searched and cannot be read.
pub fn search_jobs(cfg: &Config, dirs: &Vec<UserDir>, user: &Option<String>) -> (r: Result<
    Vec<(String, Vec<u8>)>,
    usize,
>)
    ensures
        match to_search(cfg@.central_dir, dirs@, *user, dirs@.len() as int) {
            Ok(jobs) => r is Ok && job_views(r->Ok_0@) == jobs,
            Err(k) => r == Err::<Vec<(String, Vec<u8>)>, usize>(k),
        },
{
    let mut out: Vec<(String, Vec<u8>)> = Vec::new();
    let mut i: usize = 0;
    assert(job_views(out@) =~= Seq::<(Seq<char>, Seq<u8>)>::empty());
    while i < dirs.len()
        invariant
            i <= dirs@.len(),
            to_search(cfg@.central_dir, dirs@, *user, i as int) == Ok::<
                Seq<(Seq<char>, Seq<u8>)>,
                usize,
            >(job_views(out@)),
        decreases dirs@.len() - i,
    {
        let dir = &dirs[i];
        let here = match user {
            Some(name) => same_text(name.as_str(), dir.user.as_str()),
            None => true,
        };
        if here {
            if dir.entries.is_none() {
                proof {
                    lemma_to_search_err(
                        cfg@.central_dir,
                        dirs@,
                        *user,
                        i + 1,
                        dirs@.len() as int,
                    );
                }
                return Err(i);
            }
            let paths = sessions_in(cfg, dir);
            let ghost start = out@;
            let ghost added = byte_views(paths@).map_values(|path: Seq<u8>| (dir.user@, path));
            let mut j: usize = 0;
            assert(job_views(out@) =~= job_views(start) + added.take(0));
            while j < paths.len()
                invariant
                    j <= paths@.len(),
                    added == byte_views(paths@).map_values(|path: Seq<u8>| (dir.user@, path)),
                    job_views(out@) == job_views(start) + added.take(j as int),
                decreases paths@.len() - j,
            {
                let ghost before = out@;
                out.push((dir.user.as_str().to_owned(), copy_bytes(paths[j].as_slice())));
                proof {
                    let job = (dir.user@, paths@[j as int]@);
                    assert(byte_views(paths@)[j as int] == paths@[j as int]@);
                    assert(added[j as int] == job);
                    assert(job_views(out@) =~= job_views(before).push(job));
                    assert(added.take(j + 1) =~= added.take(j as int).push(job));
                    assert(job_views(out@) =~= job_views(start) + added.take(j + 1));
                }
                j = j + 1;
            }
            assert(added.take(j as int) =~= added);
            assert(added =~= dir_sessions(cfg@.central_dir, dirs@[i as int]).map_values(
                |path: Seq<u8>| (dirs@[i as int].user@, path),
            ));
        }
        i = i + 1;
    }
    Ok(out)
}

/// The names of the sessions that are kept, for completing what is typed. Directories that cannot
/// be read are passed over.
pub fn complete_central(cfg: &Config, dirs: &Vec<UserDir>) -> (r: Vec<String>)
    ensures
        views(r@) == all_sessions(cfg@.central_dir, dirs@, dirs@.len() as int).map_values(
            |path: Seq<u8>| session_of(path),
        ),
{
    let mut out: Vec<String> = Vec::new();
    let mut i: usize = 0;
    assert(views(out@) =~= all_sessions(cfg@.central_dir, dirs@, 0).map_values(
        |path: Seq<u8>| session_of(path),
    ));
    while i < dirs.len()
        invariant
            i <= dirs@.len(),
            views(out@) == all_sessions(cfg@.central_dir, dirs@, i as int).map_values(
                |path: Seq<u8>| session_of(path),
            ),
        decreases dirs@.len() - i,
    {
        let paths = sessions_in(cfg, &dirs[i]);
        let ghost start = out@;
        let ghost added = byte_views(paths@).map_values(|path: Seq<u8>| session_of(path));
        let mut j: usize = 0;
        assert(views(out@) =~= views(start) + added.take(0));
        while j < paths.len()
            invariant
                j <= paths@.len(),
                added == byte_views(paths@).map_values(|path: Seq<u8>| session_of(path)),
                views(out@) == views(start) + added.take(j as int),
            decreases paths@.len() - j,
        {
            let ghost before = out@;
            let name = session_name(paths[j].as_slice());
            proof {
                lemma_views_push(before, name);
                assert(added[j as int] == name@);
                assert(views(before).push(name@) =~= views(start) + added.take(j + 1));
            }
            out.push(name);
            j = j + 1;
        }
        assert(views(out@) =~= all_sessions(cfg@.central_dir, dirs@, i + 1).map_values(
            |path: Seq<u8>| session_of(path),
        ));
        i = i + 1;
    }
    out
}

/// The names of the local sessions, as they come. Here a link counts too.
pub open spec fn local_names(entries: Seq<DirEntry>) -> Seq<Seq<char>>
    decreases entries.len(),
{
    if entries.len() == 0 {
        Seq::empty()
    } else {
        let before = local_names(entries.drop_last());
        let name = entries.last().name@;
        if extension(name) == Some(encode_utf8("cast"@)) {
            before.push(lossy(stem(name)))
        } else {
            before
        }
    }
}

/// The names of the local sessions, for completing what is typed.
pub fn complete_local(entries: &Vec<DirEntry>) -> (r: Vec<String>)
    ensures
        views(r@) == local_names(entries@),
{
    let mut out: Vec<String> = Vec::new();
    let mut i: usize = 0;
    assert(views(out@) =~= local_names(entries@.take(0)));
    while i < entries.len()
        invariant
            i <= entries@.len(),
            views(out@) == local_names(entries@.take(i as int)),
        decreases entries@.len() - i,
    {
        let ghost before = out@;
        let name = entries[i].name.as_slice();
        proof {
            assert(entries@.take(i + 1).drop_last() =~= entries@.take(i as int));
            assert(entries@.take(i + 1).last() == entries@[i as int]);
        }
        if has_extension(name, "cast".as_bytes()) {
            let text = lossy_text(stem_of(name).as_slice());
            proof {
                lemma_views_push(before, text);
            }
            out.push(text);
        }
        i = i + 1;
    }
    assert(entries@.take(i as int) =~= entries@);
    out
}

/// The days from the day before 1 January of the year 1 to the epoch.
pub const EPOCH_DAY: i64 = 719_163;

/// The beginning of a day, in seconds since the epoch.
pub open spec fn day_start(days: int) -> int {
    (days - EPOCH_DAY) * 86_400
}

/// The beginning of a day, in seconds since the epoch. Days count from the day before 1 January of
/// the year 1.
pub fn day_timestamp(days: i32) -> (r: i64)
    ensures
        r == day_start(days as int),
{
    (days as i64 - EPOCH_DAY) * 86_400
}

/// The beginning of the day that is given as year, month and day, in seconds since the epoch.
pub fn parse_date(s: &str) -> (r: Result<i64, String>)
    ensures
        match date_days(s@, "%Y-%m-%d"@) {
            Some(days) => r is Ok && r->Ok_0 == day_start(days as int),
            None => r is Err && r->Err_0@ == "invalid date '"@ + s@ + "' (expected YYYY-MM-DD)"@,
        },
{
    match parsed_date(s, "%Y-%m-%d") {
        Some(days) => Ok(day_timestamp(days)),
        None => {
            let mut out = prefixed("invalid date '", s);
            out.append("' (expected YYYY-MM-DD)");
            Err(out)
        },
    }
}

/// What is played.
#[derive(Debug)]
pub enum Source {
    /// The file that is named, as it is.
    File,
    /// A session of the central store, at this path, and what the user is told of it.
    Central(Vec<u8>, String),
}

/// What is said of a session of the central store before it is played.
pub open spec fn play_text(target: Seq<char>, user: Seq<char>) -> Seq<char> {
    "--- session "@ + target + " (user "@ + user + ") ---"@
}

/// What is played when a user asks for `target`: the file of that name if there is one, else the
/// session of the central store that goes by it.
pub fn play(cfg: &Config, target: &str, exists: bool, dirs: &Vec<UserDir>) -> (r: Result<
    Source,
    StoreError,
>)
    ensures
        exists ==> r == Ok::<Source, StoreError>(Source::File),
        !exists ==> match located(cfg@.central_dir, wanted(target@), dirs@, 0) {
            Ok((path, user)) => r matches Ok(Source::Central(p, text)) && p@ == path && text@
                == play_text(target@, user),
            Err(e) => r == Err::<Source, StoreError>(e),
        },
{
    if exists {
        return Ok(Source::File);
    }
    match find_central(cfg, target, dirs) {
        Err(e) => Err(e),
        Ok((path, user)) => {
            let mut text = prefixed("--- session ", target);
            text.append(" (user ");
            text.append(user.as_str());
            text.append(") ---");
            Ok(Source::Central(path, text))
        },
    }
}

/// A step of playing a recording: what is waited for, from one time to the next, and what is then
/// printed. Times are in seconds since the start, as the bits of a 64-bit float.
#[derive(Debug)]
pub struct Step {
    pub from: u64,
    pub to: u64,
    pub text: Option<String>,
}

/// The time of the event before the one with number `i`, or zero.
pub open spec fn time_before(events: Seq<Event>, i: int) -> u64 {
    if i <= 0 {
        0
    } else {
        events[i - 1].0
    }
}

/// A step plays an event: it waits from the time of the event before, and prints what the session
/// printed.
pub open spec fn plays(step: Step, events: Seq<Event>, i: int) -> bool {
    &&& step.from == time_before(events, i)
    &&& step.to == events[i].0
    &&& step.text is Some <==> is_output(events[i])
    &&& step.text is Some ==> step.text->0@ == events[i].2@
}

/// The steps of playing a recording, as far as it could be read: one for each event. Each waits
/// from the time of the event before, and prints what the session printed.
pub fn play_bytes(cast: &Cast) -> (r: Vec<Step>)
    ensures
        r@.len() == cast.events@.len(),
        forall|i: int| 0 <= i < r@.len() ==> plays(#[trigger] r@[i], cast.events@, i),
        forall|i: int| 0 <= i < r@.len() ==> (#[trigger] r@[i]).to == cast.events@[i].0,
        forall|i: int|
            0 < i < r@.len() ==> (#[trigger] r@[i]).from == cast.events@[i - 1].0,
        r@.len() > 0 ==> r@[0].from == 0,
        forall|i: int|
            0 <= i < r@.len() && cast.events@[i].1@ == "o"@ ==> (#[trigger] r@[i]).text is Some
                && r@[i].text->0@ == cast.events@[i].2@,
        forall|i: int|
            0 <= i < r@.len() && cast.events@[i].1@ != "o"@ ==> (#[trigger] r@[i]).text is None,
{
    let mut out: Vec<Step> = Vec::new();
    let mut last: u64 = 0;
    let mut i: usize = 0;
    while i < cast.events.len()
        invariant
            i <= cast.events@.len(),
            last == time_before(cast.events@, i as int),
            out@.len() == i,
            forall|k: int| 0 <= k < i ==> plays(#[trigger] out@[k], cast.events@, k),
        decreases cast.events@.len() - i,
    {
        let ev = &cast.events[i];
        let text = if shows_output(ev) {
            Some(ev.2.as_str().to_owned())
        } else {
            None
        };
        out.push(Step { from: last, to: ev.0, text });
        last = ev.0;
        i = i + 1;
    }
    out
}

/// What the user is told when a session was written to the file `out`.
pub fn export_notice(out: &[u8]) -> (r: String)
    ensures
        r@ == "exported plaintext cast to "@ + lossy(out@),
{
    prefixed("exported plaintext cast to ", lossy_text(out).as_str())
}

/// The last lines are as many as were asked for, or all, and nothing follows them.
pub proof fn law_tail_is_the_end(all: Seq<Seq<char>>, n: nat)
    ensures
        last_lines(all, n as int).len() == if all.len() < n {
            all.len()
        } else {
            n
        },
        last_lines(all, n as int).is_suffix_of(all),
{
    let tail = last_lines(all, n as int);
    assert(all.skip(all.len() - tail.len()) =~= tail);
}

/// What the steps of playing print, put together.
pub open spec fn step_texts(steps: Seq<Step>) -> Seq<char>
    decreases steps.len(),
{
    if steps.len() == 0 {
        Seq::empty()
    } else {
        step_texts(steps.drop_last()) + text_or(steps.last().text, Seq::empty())
    }
}

/// Playing prints what the session printed, character for character.
pub proof fn law_play_prints(steps: Seq<Step>, events: Seq<Event>)
    requires
        steps.len() == events.len(),
        forall|i: int| 0 <= i < steps.len() ==> plays(#[trigger] steps[i], events, i),
    ensures
        step_texts(steps) == printed(events),
    decreases steps.len(),
{
    if steps.len() > 0 {
        let fewer = steps.drop_last();
        let before = events.drop_last();
        assert forall|i: int| 0 <= i < fewer.len() implies plays(#[trigger] fewer[i], before, i) by {
            assert(fewer[i] == steps[i]);
            assert(before[i] == events[i]);
            assert(i > 0 ==> before[i - 1] == events[i - 1]);
        }
        law_play_prints(fewer, before);
        let last = steps[steps.len() - 1];
        assert(plays(last, events, steps.len() - 1));
        assert(text_or(last.text, Seq::empty()) == if is_output(events.last()) {
            events.last().2@
        } else {
            Seq::empty()
        });
        assert(printed(before) + Seq::<char>::empty() =~= printed(before));
        assert(step_texts(steps) =~= printed(events));
    }
}

/// Playing waits from event to event: a step begins at the time at which the one before it ended,
/// the first at zero, and each ends at the time of its event.
pub proof fn law_play_waits(steps: Seq<Step>, events: Seq<Event>, i: int)
    requires
        steps.len() == events.len(),
        forall|k: int| 0 <= k < steps.len() ==> plays(#[trigger] steps[k], events, k),
        0 <= i < steps.len(),
    ensures
        steps[i].to == events[i].0,
        i == 0 ==> steps[i].from == 0,
        i > 0 ==> steps[i].from == steps[i - 1].to,
{
    assert(plays(steps[i], events, i));
    if i > 0 {
        assert(plays(steps[i - 1], events, i - 1));
    }
}

/// The lines that one part of a session printed come before those that the next part did, an event
/// of output prints the lines of its text, and another prints none.
pub proof fn law_printed_lines(a: Seq<Event>, b: Seq<Event>, ev: Event)
    ensures
        printed_lines(a + b) == printed_lines(a) + printed_lines(b),
        printed_lines(Seq::empty()) == Seq::<Seq<char>>::empty(),
        ev.1@ == "o"@ ==> printed_lines(seq![ev]) == lines(ev.2@),
        ev.1@ != "o"@ ==> printed_lines(seq![ev]) == Seq::<Seq<char>>::empty(),
    decreases b.len(),
{
    assert(seq![ev].drop_last() =~= Seq::<Event>::empty());
    reveal_with_fuel(printed_lines, 2);
    assert(Seq::<Seq<char>>::empty() + lines(ev.2@) =~= lines(ev.2@));
    if b.len() == 0 {
        assert(a + b =~= a);
        assert(printed_lines(a) + printed_lines(b) =~= printed_lines(a));
    } else {
        law_printed_lines(a, b.drop_last(), ev);
        assert((a + b).drop_last() =~= a + b.drop_last());
        assert((a + b).last() == b.last());
        assert(printed_lines(a + b) =~= printed_lines(a) + printed_lines(b));
    }
}

/// How many lines the events of output have, all together.
pub open spec fn line_count(events: Seq<Event>) -> nat
    decreases events.len(),
{
    if events.len() == 0 {
        0
    } else if events.last().1@ == "o"@ {
        line_count(events.drop_last()) + lines(events.last().2@).len()
    } else {
        line_count(events.drop_last())
    }
}

/// Where at least as many lines are asked for as there are, all of them are shown: as many as the
/// texts of the events of output have, and each line of each such text, in order.
pub proof fn law_tail_shows_all(events: Seq<Event>, n: int, k: int)
    requires
        n >= line_count(events),
        0 <= k < events.len(),
        events[k].1@ == "o"@,
    ensures
        last_lines(printed_lines(events), n).len() == line_count(events),
        line_count(events.take(k)) + lines(events[k].2@).len() <= line_count(events),
        forall|j: int|
            0 <= j < lines(events[k].2@).len() ==> last_lines(
                printed_lines(events),
                n,
            )[line_count(events.take(k)) + j] == #[trigger] lines(events[k].2@)[j],
{
    lemma_line_count(events);
    lemma_line_count(events.take(k));
    let (a, b) = (events.take(k), events.skip(k + 1));
    let one = seq![events[k]];
    law_printed_lines(a, one, events[k]);
    law_printed_lines(a + one, b, events[k]);
    assert(a + one + b =~= events);
    let all = printed_lines(a) + lines(events[k].2@) + printed_lines(b);
    assert(printed_lines(events) == all);
    assert forall|j: int| 0 <= j < lines(events[k].2@).len() implies last_lines(
        printed_lines(events),
        n,
    )[line_count(a) + j] == #[trigger] lines(events[k].2@)[j] by {
        assert(all[printed_lines(a).len() + j] == lines(events[k].2@)[j]);
    }
}

/// The lines that a session printed are as many as the texts of its events of output have.
proof fn lemma_line_count(events: Seq<Event>)
    ensures
        printed_lines(events).len() == line_count(events),
    decreases events.len(),
{
    if events.len() > 0 {
        lemma_line_count(events.drop_last());
    }
}

/// `text` stands in `hay`, both as they are compared.
pub open spec fn stands_in(hay: Seq<char>, text: Seq<char>, insensitive: bool) -> bool {
    if insensitive {
        exists|i: int| occurs_at(unicode_lowercase(hay), unicode_lowercase(text), i)
    } else {
        exists|i: int| occurs_at(hay, text, i)
    }
}

/// A search shows a session whose command holds what is searched for, at any place.
pub proof fn law_search_finds_command(
    q: Query,
    user: Seq<char>,
    path: Seq<u8>,
    cast: Cast,
    i: int,
)
    requires
        cast.intact,
        q.from is Some ==> q.from->0 <= cast.header.timestamp,
        q.to is Some ==> cast.header.timestamp <= q.to->0,
        q.insensitive ==> occurs_at(
            unicode_lowercase(cast.header.command@),
            unicode_lowercase(q.pattern@),
            i,
        ),
        !q.insensitive ==> occurs_at(cast.header.command@, q.pattern@, i),
    ensures
        finds(q, user, path, cast) is Some,
{
}

/// A search shows a session of which an event of output holds what is searched for, at any place.
pub proof fn law_search_finds_output(
    q: Query,
    user: Seq<char>,
    path: Seq<u8>,
    cast: Cast,
    k: int,
    i: int,
)
    requires
        cast.intact,
        q.from is Some ==> q.from->0 <= cast.header.timestamp,
        q.to is Some ==> cast.header.timestamp <= q.to->0,
        0 <= k < cast.events@.len(),
        cast.events@[k].1@ == "o"@,
        q.insensitive ==> occurs_at(
            unicode_lowercase(cast.events@[k].2@),
            unicode_lowercase(q.pattern@),
            i,
        ),
        !q.insensitive ==> occurs_at(cast.events@[k].2@, q.pattern@, i),
    ensures
        finds(q, user, path, cast) is Some,
{
    assert(event_hits(q, cast.events@[k]));
}

/// A search shows no other session: one that it shows can be read to its end, began in time, and
/// has what is searched for in its command or in an event of output.
pub proof fn law_search_finds_no_other(q: Query, user: Seq<char>, path: Seq<u8>, cast: Cast)
    requires
        finds(q, user, path, cast) is Some,
    ensures
        cast.intact,
        q.from is Some ==> q.from->0 <= cast.header.timestamp,
        q.to is Some ==> cast.header.timestamp <= q.to->0,
        stands_in(cast.header.command@, q.pattern@, q.insensitive) || exists|k: int|
            0 <= k < cast.events@.len() && (#[trigger] cast.events@[k]).1@ == "o"@ && stands_in(
                cast.events@[k].2@,
                q.pattern@,
                q.insensitive,
            ),
{
    if !q.hits(cast.header.command@) {
        let k = choose|k: int|
            0 <= k < cast.events@.len() && event_hits(q, #[trigger] cast.events@[k]);
        assert(cast.events@[k].1@ == "o"@);
    }
}

/// The lines that are found in two lists of lines are those of the first and then those of the
/// second; of one line it is found if what is searched for stands in it.
pub proof fn law_hit_lines(q: Query, a: Seq<Seq<char>>, b: Seq<Seq<char>>, line: Seq<char>)
    ensures
        hit_lines(q, a + b) == hit_lines(q, a) + hit_lines(q, b),
        stands_in(line, q.pattern@, q.insensitive) ==> hit_lines(q, seq![line]) == seq![line],
        !stands_in(line, q.pattern@, q.insensitive) ==> hit_lines(q, seq![line]) == Seq::<
            Seq<char>,
        >::empty(),
    decreases b.len(),
{
    reveal_with_fuel(hit_lines, 2);
    assert(seq![line].drop_last() =~= Seq::<Seq<char>>::empty());
    assert(Seq::<Seq<char>>::empty().push(line) =~= seq![line]);
    if b.len() == 0 {
        assert(a + b =~= a);
        assert(hit_lines(q, a) + hit_lines(q, b) =~= hit_lines(q, a));
    } else {
        law_hit_lines(q, a, b.drop_last(), line);
        assert((a + b).drop_last() =~= a + b.drop_last());
        assert((a + b).last() == b.last());
        assert(hit_lines(q, a + b) =~= hit_lines(q, a) + hit_lines(q, b));
    }
}

/// The lines that are found in one part of a session come before those of the next part. Of an
/// event of output that holds what is searched for they are those of its lines that do; of another
/// event there are none.
pub proof fn law_session_lines(q: Query, a: Seq<Event>, b: Seq<Event>, ev: Event)
    ensures
        session_lines(q, a + b) == session_lines(q, a) + session_lines(q, b),
        ev.1@ == "o"@ && stands_in(ev.2@, q.pattern@, q.insensitive) ==> session_lines(q, seq![ev])
            == hit_lines(q, lines(ev.2@)),
        !(ev.1@ == "o"@ && stands_in(ev.2@, q.pattern@, q.insensitive)) ==> session_lines(
            q,
            seq![ev],
        ) == Seq::<Seq<char>>::empty(),
    decreases b.len(),
{
    reveal_with_fuel(session_lines, 2);
    assert(seq![ev].drop_last() =~= Seq::<Event>::empty());
    assert(Seq::<Seq<char>>::empty() + hit_lines(q, lines(ev.2@)) =~= hit_lines(q, lines(ev.2@)));
    if b.len() == 0 {
        assert(a + b =~= a);
        assert(session_lines(q, a) + session_lines(q, b) =~= session_lines(q, a));
    } else {
        law_session_lines(q, a, b.drop_last(), ev);
        assert((a + b).drop_last() =~= a + b.drop_last());
        assert((a + b).last() == b.last());
        assert(session_lines(q, a + b) =~= session_lines(q, a) + session_lines(q, b));
    }
}

/// Each line that is shown stands on a line of its own behind the mark, in order.
pub proof fn law_marked(a: Seq<Seq<char>>, line: Seq<char>)
    ensures
        marked(Seq::empty()) == Seq::<char>::empty(),
        marked(a.push(line)) == marked(a) + "\n  > "@ + line,
{
    assert(a.push(line).drop_last() =~= a);
    reveal_strlit("\n");
    reveal_strlit("  > ");
    reveal_strlit("\n  > ");
    assert("\n"@ + "  > "@ =~= "\n  > "@);
    assert(marked(a.push(line)) =~= marked(a) + "\n  > "@ + line);
}

/// A session that is found is shown with its user, its file and its command, and then with the
/// first five of the lines that are found in it, or with all where there are fewer.
pub proof fn law_search_text(q: Query, user: Seq<char>, dir: Seq<u8>, name: Seq<u8>, cast: Cast)
    requires
        dir.len() > 0,
        forall|i: int| 0 <= i < name.len() ==> name[i] != SEPARATOR,
        finds(q, user, join(dir, name), cast) is Some,
    ensures
        ({
            let found = session_lines(q, cast.events@);
            let head = user + "/"@ + lossy(name) + "  "@ + cast.header.command@;
            finds(q, user, join(dir, name), cast) == Some(
                head + marked(
                    if found.len() <= 5 {
                        found
                    } else {
                        found.take(5)
                    },
                ),
            )
        }),
{
    law_base_name_of_join(dir, name);
}

/// Of one session a search shows what it finds there, and of one that cannot be read nothing.
pub proof fn law_search_of_one(q: Query, c: Candidate)
    ensures
        c.cast is None ==> search_texts(q, seq![c]).len() == 0,
        c.cast is Some ==> match finds(q, c.user@, c.path@, c.cast->0) {
            Some(text) => search_texts(q, seq![c]) == seq![text],
            None => search_texts(q, seq![c]).len() == 0,
        },
{
    reveal_with_fuel(search_texts, 2);
    assert(seq![c].drop_last() =~= Seq::<Candidate>::empty());
    if c.cast is Some {
        if let Some(text) = finds(q, c.user@, c.path@, c.cast->0) {
            assert(Seq::<Seq<char>>::empty().push(text) =~= seq![text]);
        }
    }
}

/// Why the daemon does not show a session is what it says behind `ERR `; a reply that does not begin
/// so is the session.
pub proof fn law_refusal(message: Seq<char>, reply: Seq<u8>)
    requires
        message.len() > 0,
        bare(message),
        !"ERR "@.is_prefix_of(message),
    ensures
        refusal(encode_utf8("ERR "@ + message + "\n"@)) == Some(message),
        !encode_utf8("ERR "@).is_prefix_of(reply) ==> refusal(reply) is None,
{
    let text = "ERR "@ + message + "\n"@;
    let said = "ERR "@ + message;
    reveal_strlit("ERR ");
    reveal_strlit("\n");
    encode_utf8_valid_utf8(text);
    encode_utf8_decode_utf8(text);
    lemma_encode_concat(said, "\n"@);
    lemma_encode_concat("ERR "@, message);
    let (a, b, c) = (encode_utf8("ERR "@), encode_utf8(message), encode_utf8("\n"@));
    assert(encode_utf8(text) =~= a + (b + c));
    assert(a.is_prefix_of(encode_utf8(text)));
    law_trim_around(Seq::empty(), said, "\n"@);
    assert(Seq::<char>::empty() + said + "\n"@ =~= text);
    law_trim_prefixes(message, "ERR "@);
}

/// A directory is counted as long as it and all before it can be read.
pub proof fn law_readable(dirs: Seq<UserDir>, i: int)
    requires
        0 <= i < dirs.len(),
    ensures
        0 <= readable(dirs) <= dirs.len(),
        i < readable(dirs) ==> dirs[i].entries is Some,
        i == readable(dirs) ==> dirs[i].entries is None,
    decreases dirs.len(),
{
    if dirs[0].entries is Some {
        let rest = dirs.drop_first();
        if i > 0 {
            law_readable(rest, i - 1);
            assert(rest[i - 1] == dirs[i]);
        } else if rest.len() > 0 {
            law_readable(rest, 0);
        }
    }
}

/// A user is listed with the number of sessions in their directory.
pub proof fn law_user_row(central: Seq<u8>, user: UserDir, entries: Vec<DirEntry>)
    requires
        user.entries == Some(entries),
    ensures
        user_row(central, user) == left_column(user.user@, 20) + " "@ + decimal(
            cast_paths(join(central, encode_utf8(user.user@)), entries@).len(),
        ),
{
    lemma_row_of_two(
        user.user@,
        20,
        decimal(cast_paths(join(central, encode_utf8(user.user@)), entries@).len()),
    );
}

/// In the tree a user has a line with the number of their sessions, and behind it each session has
/// one; the last of its kind has a branch that turns.
pub proof fn law_user_tree(central: Seq<u8>, user: UserDir, entries: Vec<DirEntry>, last: bool, i: int)
    requires
        user.entries == Some(entries),
        0 <= i < cast_paths(join(central, encode_utf8(user.user@)), entries@).len(),
    ensures
        ({
            let paths = cast_paths(join(central, encode_utf8(user.user@)), entries@);
            let lines = user_tree(central, user, last);
            let turn = if last {
                "└─"@
            } else {
                "├─"@
            };
            let inner = if i == paths.len() - 1 {
                "└─"@
            } else {
                "├─"@
            };
            let before = if last {
                "   "@
            } else {
                "│  "@
            };
            &&& lines.len() == paths.len() + 1
            &&& lines[0] == turn + " "@ + left_column(user.user@, 20) + "  ("@ + decimal(paths.len())
                + " sessions)"@
            &&& lines[i + 1] == before + inner + " "@ + session_of(paths[i])
        }),
{
}

/// The tree has the central directory first, and each user behind the ones before them.
pub proof fn law_tree(central: Seq<u8>, dirs: Seq<UserDir>, n: int)
    requires
        0 <= n < dirs.len(),
    ensures
        tree_lines(central, dirs, 0) == seq![lossy(central)],
        tree_lines(central, dirs, n + 1) == tree_lines(central, dirs, n) + user_tree(
            central,
            dirs[n],
            n == dirs.len() - 1,
        ),
{
}

/// A session is among those of the first users exactly when the directory of one of them holds it.
pub proof fn law_all_sessions(central: Seq<u8>, dirs: Seq<UserDir>, n: int, path: Seq<u8>)
    requires
        0 <= n <= dirs.len(),
    ensures
        all_sessions(central, dirs, n).contains(path) <==> exists|k: int|
            k < n && #[trigger] holds(central, dirs, k, path),
    decreases n,
{
    if n > 0 {
        law_all_sessions(central, dirs, n - 1, path);
        let first = all_sessions(central, dirs, n - 1);
        let more = dir_sessions(central, dirs[n - 1]);
        let all = all_sessions(central, dirs, n);
        assert(more.contains(path) <==> holds(central, dirs, n - 1, path));
        if all.contains(path) {
            let i = choose|i: int| 0 <= i < all.len() && all[i] == path;
            if i < first.len() {
                assert(first[i] == path);
            } else {
                assert(more[i - first.len()] == path);
            }
        }
        if exists|k: int| k < n && #[trigger] holds(central, dirs, k, path) {
            let k = choose|k: int| k < n && #[trigger] holds(central, dirs, k, path);
            if k == n - 1 {
                let i = choose|i: int| 0 <= i < more.len() && more[i] == path;
                assert(all[i + first.len()] == path);
            } else {
                assert(first.contains(path));
                let i = choose|i: int| 0 <= i < first.len() && first[i] == path;
                assert(all[i] == path);
            }
        }
    }
}

/// A session is searched exactly when the directory of its user holds it, and that user is asked
/// for or none is.
pub proof fn law_sessions_to_search(
    central: Seq<u8>,
    dirs: Seq<UserDir>,
    user: Option<String>,
    n: int,
    name: Seq<char>,
    path: Seq<u8>,
)
    requires
        0 <= n <= dirs.len(),
        to_search(central, dirs, user, n) is Ok,
    ensures
        to_search(central, dirs, user, n)->Ok_0.contains((name, path)) <==> (user is Some ==> user->0@
            == name) && exists|k: int|
            k < n && #[trigger] holds(central, dirs, k, path) && dirs[k].user@ == name,
        forall|k: int|
            0 <= k < n && (user is Some ==> user->0@ == (#[trigger] dirs[k]).user@)
                ==> dirs[k].entries is Some,
    decreases n,
{
    if n > 0 {
        let dir = dirs[n - 1];
        law_sessions_to_search(central, dirs, user, n - 1, name, path);
        let first = to_search(central, dirs, user, n - 1)->Ok_0;
        let all = to_search(central, dirs, user, n)->Ok_0;
        let job = (name, path);
        if searched(dir, user) {
            let paths = dir_sessions(central, dir);
            let more = paths.map_values(|p: Seq<u8>| (dir.user@, p));
            assert(all == first + more);
            if all.contains(job) {
                let i = choose|i: int| 0 <= i < all.len() && all[i] == job;
                if i < first.len() {
                    assert(first[i] == job);
                    assert(first.contains(job));
                } else {
                    assert(more[i - first.len()] == job);
                    assert(paths[i - first.len()] == path);
                    assert(holds(central, dirs, n - 1, path));
                }
            }
            if exists|k: int| k < n && #[trigger] holds(central, dirs, k, path) && dirs[k].user@ == name {
                let k = choose|k: int|
                    k < n && #[trigger] holds(central, dirs, k, path) && dirs[k].user@ == name;
                if k == n - 1 {
                    let i = choose|i: int| 0 <= i < paths.len() && paths[i] == path;
                    assert(more[i] == job);
                    assert(all[first.len() + i] == job);
                } else if user is Some ==> user->0@ == name {
                    assert(first.contains(job));
                    let i = choose|i: int| 0 <= i < first.len() && first[i] == job;
                    assert(all[i] == job);
                }
            }
        }
    }
}

/// A search fails only where a directory that has to be searched cannot be read.
pub proof fn law_search_fails(
    central: Seq<u8>,
    dirs: Seq<UserDir>,
    user: Option<String>,
    n: int,
)
    requires
        0 <= n <= dirs.len() <= usize::MAX,
        to_search(central, dirs, user, n) is Err,
    ensures
        ({
            let k = to_search(central, dirs, user, n)->Err_0 as int;
            &&& 0 <= k < n
            &&& dirs[k].entries is None
            &&& user is Some ==> user->0@ == dirs[k].user@
        }),
    decreases n,
{
    if n > 0 && to_search(central, dirs, user, n - 1) is Err {
        law_search_fails(central, dirs, user, n - 1);
    }
}

/// A name is completed for a local session exactly when a file of it stands in the directory.
pub proof fn law_local_names(entries: Seq<DirEntry>, name: Seq<char>)
    ensures
        local_names(entries).contains(name) <==> exists|i: int|
            0 <= i < entries.len() && extension((#[trigger] entries[i]).name@) == Some(
                encode_utf8("cast"@),
            ) && lossy(stem(entries[i].name@)) == name,
    decreases entries.len(),
{
    if entries.len() > 0 {
        let fewer = entries.drop_last();
        let before = local_names(fewer);
        let all = local_names(entries);
        law_local_names(fewer, name);
        if before.contains(name) {
            let j = choose|j: int| 0 <= j < before.len() && before[j] == name;
            assert(all[j] == name);
            let i = choose|i: int|
                0 <= i < fewer.len() && extension((#[trigger] fewer[i]).name@) == Some(
                    encode_utf8("cast"@),
                ) && lossy(stem(fewer[i].name@)) == name;
            assert(entries[i] == fewer[i]);
        }
        if all.contains(name) && !before.contains(name) {
            let j = choose|j: int| 0 <= j < all.len() && all[j] == name;
            if j < before.len() {
                assert(before[j] == name);
            }
            assert(entries[entries.len() - 1] == entries.last());
        }
        if exists|i: int|
            0 <= i < entries.len() && extension((#[trigger] entries[i]).name@) == Some(
                encode_utf8("cast"@),
            ) && lossy(stem(entries[i].name@)) == name {
            let i = choose|i: int|
                0 <= i < entries.len() && extension((#[trigger] entries[i]).name@) == Some(
                    encode_utf8("cast"@),
                ) && lossy(stem(entries[i].name@)) == name;
            if i == entries.len() - 1 {
                assert(all[all.len() - 1] == name);
            } else {
                assert(fewer[i] == entries[i]);
                assert(before.contains(name));
            }
        }
    }
}

/// A session is kept for thirty days of 86400 seconds at least.
pub proof fn law_cutoff(now: i64)
    requires
        now >= 0,
    ensures
        now - cutoff(now) == 30 * 86_400,
{
}

/// A day begins 86400 seconds after the day before it, and the first of 1970 at zero.
pub proof fn law_day_start(days: int)
    ensures
        day_start(days + 1) - day_start(days) == 86_400,
        day_start(719_163) == 0,
{
}

/// The last lines of a list that grows: the new line comes last, and the first goes where there are
/// too many.
pub proof fn law_tail_grows(all: Seq<Seq<char>>, line: Seq<char>, n: nat)
    ensures
        n > 0 ==> last_lines(all.push(line), n as int).last() == line,
        all.len() < n ==> last_lines(all.push(line), n as int) == last_lines(all, n as int).push(
            line,
        ),
        all.len() >= n > 0 ==> last_lines(all.push(line), n as int) == last_lines(
            all,
            n as int,
        ).drop_first().push(line),
{
    let more = last_lines(all.push(line), n as int);
    if all.len() >= n && n > 0 {
        assert(more =~= last_lines(all, n as int).drop_first().push(line));
    }
}

/// What is said of a session before it is played names what was asked for, and its user.
pub proof fn law_play_text(target: Seq<char>, user: Seq<char>)
    ensures
        play_text(target, user) == "--- session "@ + target + " (user "@ + user + ") ---"@,
{
}

/// The sessions to search come user by user, and those of a user in order.
pub proof fn law_search_order(
    central: Seq<u8>,
    dirs: Seq<UserDir>,
    user: Option<String>,
    n: int,
    i: int,
)
    requires
        0 <= n < dirs.len(),
        to_search(central, dirs, user, n + 1) is Ok,
    ensures
        to_search(central, dirs, user, n) is Ok,
        ({
            let before = to_search(central, dirs, user, n)->Ok_0;
            let all = to_search(central, dirs, user, n + 1)->Ok_0;
            let paths = dir_sessions(central, dirs[n]);
            if user is Some && user->0@ != dirs[n].user@ {
                all == before
            } else {
                &&& all.len() == before.len() + paths.len()
                &&& 0 <= i < before.len() ==> all[i] == before[i]
                &&& 0 <= i < paths.len() ==> all[before.len() + i] == (dirs[n].user@, paths[i])
            }
        }),
{
}

} // verus!
